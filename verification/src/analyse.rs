//! Turning parsed files into the repository graph: every import is resolved
//! by the resolver of its file's language, followed through barrel files to
//! the file that defines what it imports, and becomes an edge or an entry in
//! the list of unresolved imports.
use vstd::prelude::*;
use std::collections::HashMap;
use crate::model::{result_view, CaseMismatch, Edge, EdgeKind, EdgeSite, FileId, Language, ReasonView, UnresolvedImport, UnresolvedReason};
use crate::parse::{ExportItem, ImportKind, ImportedNames, ParsedFile, RawImport};
use crate::resolve::{defines, follow_reexport, forward_of, reexport_chain, reexport_dead_end, reexport_link, answers, FileIndex, MAX_REEXPORT_DEPTH};
use crate::resolve::go::{go_outcome, GoProject};
use crate::resolve::javascript::{candidates_of, joined_rel, js_outcome, JsProject};
use crate::resolve::python::{py_outcome, PythonProject};
use crate::resolve::rust::{rust_outcome, RustProject};
use crate::order::{count_not_before, insert_sorted, stable_sorted, str_before, strictly_sorted};
use crate::text::{before_last, chars_eq, chars_of, string_of};
use crate::model::{ModuleId, ModuleNode};

verus! {

/// What the resolvers know of the repository beyond its file list.
pub struct Projects {
    pub js: JsProject,
    pub rust: RustProject,
    pub python: PythonProject,
    pub go: GoProject,
}

/// Where a forwarded specifier written in file `from` leads, for the
/// languages whose barrels are followed: Rust and the JavaScript family.
pub open spec fn barrel_step(paths: Seq<Seq<char>>, projects: Projects, language: Language, from: FileId, spec: Seq<char>) -> Option<FileId> {
    if from.0 < paths.len() {
        let fp = paths[from.0 as int];
        match language {
            Language::Rust => match rust_outcome(paths, fp, spec, false, None, projects.rust) {
                Ok(id) => Some(id),
                Err(_) => None,
            },
            Language::Python | Language::Go => None,
            _ => match js_outcome(paths, fp, spec, projects.js) {
                Ok(h) => Some(h.0),
                Err(_) => None,
            },
        }
    } else {
        None
    }
}

/// One step through a barrel: `from` is parsed, does not define `symbol`,
/// forwards it, and the forward leads to `to`.
pub open spec fn step_link(
    parsed: Map<u32, ParsedFile>,
    symbol: Seq<char>,
    step: spec_fn(FileId, Seq<char>) -> Option<FileId>,
    from: FileId,
    to: Option<FileId>,
) -> bool {
    &&& parsed.contains_key(from.0)
    &&& !defines(parsed[from.0].exports@, symbol)
    &&& match forward_of(parsed[from.0].exports@, symbol) {
        Some(sp) => step(from, sp) == to,
        None => false,
    }
}

/// A walk through barrels: no file twice, each step a link.
pub open spec fn step_chain(
    parsed: Map<u32, ParsedFile>,
    symbol: Seq<char>,
    step: spec_fn(FileId, Seq<char>) -> Option<FileId>,
    chain: Seq<FileId>,
) -> bool {
    &&& chain.len() >= 1
    &&& forall|i: int, j: int| 0 <= i < j < chain.len() ==> chain[i] != chain[j]
    &&& forall|i: int| 0 <= i < chain.len() - 1 ==> #[trigger] step_link(parsed, symbol, step, chain[i], Some(chain[i + 1]))
}

/// The walk ends at its last file without finding the definition.
pub open spec fn step_dead_end(
    parsed: Map<u32, ParsedFile>,
    symbol: Seq<char>,
    step: spec_fn(FileId, Seq<char>) -> Option<FileId>,
    chain: Seq<FileId>,
) -> bool {
    let last = chain.last();
    ||| !parsed.contains_key(last.0)
    ||| parsed.contains_key(last.0) && !defines(parsed[last.0].exports@, symbol) && forward_of(parsed[last.0].exports@, symbol) is None
    ||| step_link(parsed, symbol, step, last, None)
    ||| exists|g: FileId| chain.contains(g) && #[trigger] step_link(parsed, symbol, step, last, Some(g))
}

/// Where the walk for `symbol` from `start` ends: at the file that defines
/// it, within the depth limit, or nowhere.
pub open spec fn barrel_end(
    parsed: Map<u32, ParsedFile>,
    symbol: Seq<char>,
    step: spec_fn(FileId, Seq<char>) -> Option<FileId>,
    start: FileId,
    end: Option<FileId>,
) -> bool {
    match end {
        Some(g) => exists|chain: Seq<FileId>|
            #[trigger] step_chain(parsed, symbol, step, chain)
            && chain[0] == start
            && chain.len() <= MAX_REEXPORT_DEPTH
            && chain.last() == g
            && parsed.contains_key(g.0)
            && defines(parsed[g.0].exports@, symbol),
        None => exists|chain: Seq<FileId>|
            #[trigger] step_chain(parsed, symbol, step, chain)
            && chain[0] == start
            && (chain.len() == MAX_REEXPORT_DEPTH + 1
                || chain.len() <= MAX_REEXPORT_DEPTH && step_dead_end(parsed, symbol, step, chain)),
    }
}

/// The walk through barrels as a function: from the last file of
/// `visited`, with `fuel` files left to look at, follow the forward of
/// `symbol` until a file defines it; stop without an answer at a file that is
/// not parsed, forwards nothing, leads nowhere or back into the walk.
pub open spec fn walk_from(
    parsed: Map<u32, ParsedFile>,
    symbol: Seq<char>,
    step: spec_fn(FileId, Seq<char>) -> Option<FileId>,
    visited: Seq<FileId>,
    fuel: nat,
) -> Option<FileId>
    decreases fuel,
{
    let current = visited.last();
    if fuel == 0 || !parsed.contains_key(current.0) {
        None
    } else if defines(parsed[current.0].exports@, symbol) {
        Some(current)
    } else {
        match forward_of(parsed[current.0].exports@, symbol) {
            None => None,
            Some(sp) => match step(current, sp) {
                None => None,
                Some(n) => if visited.contains(n) {
                    None
                } else {
                    walk_from(parsed, symbol, step, visited.push(n), (fuel - 1) as nat)
                },
            },
        }
    }
}

/// Following the links of a chain is the walk itself: after `i` steps
/// along it, the walk from its start is where it would go from there.
proof fn lemma_walk_prefix(
    parsed: Map<u32, ParsedFile>,
    symbol: Seq<char>,
    step: spec_fn(FileId, Seq<char>) -> Option<FileId>,
    chain: Seq<FileId>,
    i: int,
)
    requires
        step_chain(parsed, symbol, step, chain),
        chain.len() <= MAX_REEXPORT_DEPTH + 1,
        0 <= i < chain.len(),
    ensures
        walk_from(parsed, symbol, step, chain.take(i + 1), (MAX_REEXPORT_DEPTH - i) as nat)
            == walk_from(parsed, symbol, step, seq![chain[0]], MAX_REEXPORT_DEPTH as nat),
    decreases i,
{
    if i == 0 {
        assert(chain.take(1) =~= seq![chain[0]]);
    } else {
        lemma_walk_prefix(parsed, symbol, step, chain, i - 1);
        let j = i - 1;
        assert(step_link(parsed, symbol, step, chain[j], Some(chain[j + 1])));
        assert(chain.take(j + 1).last() == chain[j]);
        assert(!chain.take(j + 1).contains(chain[j + 1])) by {
            if chain.take(j + 1).contains(chain[j + 1]) {
                let pre = chain.take(j + 1);
                let k = choose|k: int| 0 <= k < pre.len() && #[trigger] pre[k] == chain[j + 1];
                assert(chain[k] == chain[j + 1]);
            }
        }
        assert(chain.take(j + 1).push(chain[j + 1]) =~= chain.take(i + 1));
    }
}

/// The walk through barrels has one end: whatever chain shows it, it is
/// where the walk from `start` ends.
pub proof fn lemma_barrel_end_unique(
    parsed: Map<u32, ParsedFile>,
    symbol: Seq<char>,
    step: spec_fn(FileId, Seq<char>) -> Option<FileId>,
    start: FileId,
    end: Option<FileId>,
)
    requires
        barrel_end(parsed, symbol, step, start, end),
    ensures
        end == walk_from(parsed, symbol, step, seq![start], MAX_REEXPORT_DEPTH as nat),
{
    let chain = match end {
        Some(g) => choose|chain: Seq<FileId>|
            #[trigger] step_chain(parsed, symbol, step, chain)
            && chain[0] == start
            && chain.len() <= MAX_REEXPORT_DEPTH
            && chain.last() == g
            && parsed.contains_key(g.0)
            && defines(parsed[g.0].exports@, symbol),
        None => choose|chain: Seq<FileId>|
            #[trigger] step_chain(parsed, symbol, step, chain)
            && chain[0] == start
            && (chain.len() == MAX_REEXPORT_DEPTH + 1
                || chain.len() <= MAX_REEXPORT_DEPTH && step_dead_end(parsed, symbol, step, chain)),
    };
    lemma_walk_prefix(parsed, symbol, step, chain, chain.len() - 1);
    assert(chain.take(chain.len() as int) =~= chain);
    let last = chain.last();
    if chain.len() == MAX_REEXPORT_DEPTH + 1 {
    } else {
        match end {
            Some(g) => {},
            None => {
                if exists|g: FileId| chain.contains(g) && #[trigger] step_link(parsed, symbol, step, last, Some(g)) {
                    let g = choose|g: FileId| chain.contains(g) && #[trigger] step_link(parsed, symbol, step, last, Some(g));
                    assert(chain.contains(g));
                }
            },
        }
    }
}

proof fn lemma_link_as_step<R: Fn(FileId, &str) -> Option<FileId>>(
    parsed: Map<u32, ParsedFile>,
    symbol: Seq<char>,
    resolve: R,
    step: spec_fn(FileId, Seq<char>) -> Option<FileId>,
    from: FileId,
    to: Option<FileId>,
)
    requires
        forall|f: FileId, s: &str, o: Option<FileId>| call_ensures(resolve, (f, s), o) ==> o == step(f, s@),
        reexport_link(parsed, symbol, resolve, from, to),
    ensures
        step_link(parsed, symbol, step, from, to),
{
    let sp = forward_of(parsed[from.0].exports@, symbol)->0;
    let s = choose|s: &str| s@ == sp && #[trigger] call_ensures(resolve, (from, s), to);
    assert(call_ensures(resolve, (from, s), to));
}

proof fn lemma_chain_as_step<R: Fn(FileId, &str) -> Option<FileId>>(
    parsed: Map<u32, ParsedFile>,
    symbol: Seq<char>,
    resolve: R,
    step: spec_fn(FileId, Seq<char>) -> Option<FileId>,
    chain: Seq<FileId>,
)
    requires
        forall|f: FileId, s: &str, o: Option<FileId>| call_ensures(resolve, (f, s), o) ==> o == step(f, s@),
        reexport_chain(parsed, symbol, resolve, chain),
    ensures
        step_chain(parsed, symbol, step, chain),
{
    assert forall|i: int| 0 <= i < chain.len() - 1 implies #[trigger] step_link(parsed, symbol, step, chain[i], Some(chain[i + 1])) by {
        assert(reexport_link(parsed, symbol, resolve, chain[i], Some(chain[i + 1])));
        lemma_link_as_step(parsed, symbol, resolve, step, chain[i], Some(chain[i + 1]));
    }
}

proof fn lemma_dead_end_as_step<R: Fn(FileId, &str) -> Option<FileId>>(
    parsed: Map<u32, ParsedFile>,
    symbol: Seq<char>,
    resolve: R,
    step: spec_fn(FileId, Seq<char>) -> Option<FileId>,
    chain: Seq<FileId>,
)
    requires
        forall|f: FileId, s: &str, o: Option<FileId>| call_ensures(resolve, (f, s), o) ==> o == step(f, s@),
        chain.len() >= 1,
        reexport_dead_end(parsed, symbol, resolve, chain),
    ensures
        step_dead_end(parsed, symbol, step, chain),
{
    let last = chain.last();
    if reexport_link(parsed, symbol, resolve, last, None) {
        lemma_link_as_step(parsed, symbol, resolve, step, last, None);
    } else if exists|g: FileId| chain.contains(g) && #[trigger] reexport_link(parsed, symbol, resolve, last, Some(g)) {
        let g = choose|g: FileId| chain.contains(g) && #[trigger] reexport_link(parsed, symbol, resolve, last, Some(g));
        lemma_link_as_step(parsed, symbol, resolve, step, last, Some(g));
        assert(chain.contains(g) && step_link(parsed, symbol, step, last, Some(g)));
    }
}

/// Whether some export is forwarded from another module.
fn forwards_any(exports: &Vec<ExportItem>) -> (r: bool)
    ensures
        r == exists|i: int| 0 <= i < exports@.len() && (#[trigger] exports@[i]).from is Some,
{
    let mut i: usize = 0;
    while i < exports.len()
        invariant
            i <= exports@.len(),
            forall|j: int| 0 <= j < i ==> (#[trigger] exports@[j]).from is None,
        decreases exports@.len() - i,
    {
        if exports[i].from.is_some() {
            return true;
        }
        i += 1;
    }
    false
}

/// Where an import that resolved to `target` finally points, and what kind
/// of edge it makes: when it names symbols and `target` forwards some of its
/// exports, the first symbol is followed through the barrels; the edge goes
/// to the file that defines it, or stays on `target` as a barrel edge when
/// the walk finds nothing.
pub open spec fn barrel_target(
    parsed: Map<u32, ParsedFile>,
    paths: Seq<Seq<char>>,
    projects: Projects,
    language: Language,
    target: FileId,
    names: ImportedNames,
) -> (FileId, EdgeKind) {
    match names {
        ImportedNames::Named(v) => if v@.len() == 0 || !parsed.contains_key(target.0)
            || !(exists|i: int| 0 <= i < parsed[target.0].exports@.len() && (#[trigger] parsed[target.0].exports@[i]).from is Some) {
            (target, EdgeKind::Import)
        } else {
            match walk_from(parsed, v@[0]@, step_of(paths, projects, language), seq![target], MAX_REEXPORT_DEPTH as nat) {
                Some(g) => (g, EdgeKind::Import),
                None => (target, EdgeKind::ViaBarrel),
            }
        },
        _ => (target, EdgeKind::Import),
    }
}

/// The barrel step as a function of the file and the specifier.
pub open spec fn step_of(paths: Seq<Seq<char>>, projects: Projects, language: Language) -> spec_fn(FileId, Seq<char>) -> Option<FileId> {
    |f: FileId, s: Seq<char>| barrel_step(paths, projects, language, f, s)
}

/// Follows an import that resolved to `target` through barrel files.
pub fn see_through_barrel(
    target: FileId,
    names: &ImportedNames,
    parsed: &HashMap<u32, ParsedFile>,
    index: &FileIndex,
    projects: &Projects,
    language: Language,
) -> (r: (FileId, EdgeKind))
    requires
        index.wf(),
    ensures
        r == barrel_target(parsed@, index.path_texts(), *projects, language, target, *names),
{
    broadcast use vstd::std_specs::hash::group_hash_axioms;
    let symbols = match names {
        ImportedNames::Named(v) => v,
        _ => {
            return (target, EdgeKind::Import);
        },
    };
    if symbols.len() == 0 {
        return (target, EdgeKind::Import);
    }
    let file = match parsed.get(&target.0) {
        Some(f) => f,
        None => {
            return (target, EdgeKind::Import);
        },
    };
    if !forwards_any(&file.exports) {
        return (target, EdgeKind::Import);
    }
    let ghost paths = index.path_texts();
    let ghost step = step_of(paths, *projects, language);
    let resolve = |from: FileId, spec: &str| -> (o: Option<FileId>)
        ensures
            o == barrel_step(index.path_texts(), *projects, language, from, spec@),
        {
            match index.path(from) {
                Some(from_path) => match language {
                    Language::Rust => match crate::resolve::rust::resolve_specifier(from_path, spec, false, index, &projects.rust) {
                        Ok(id) => Some(id),
                        Err(_) => None,
                    },
                    Language::Python | Language::Go => None,
                    _ => match crate::resolve::javascript::resolve_specifier(from_path, spec, index, &projects.js) {
                        Ok(id) => Some(id),
                        Err(_) => None,
                    },
                },
                None => None,
            }
        };
    let symbol = symbols[0].as_str();
    let end = follow_reexport(target, symbol, parsed, &resolve);
    proof {
        assert forall|f: FileId, s: &str, o: Option<FileId>| call_ensures(resolve, (f, s), o) implies o == step(f, s@) by {}
        match end {
            Some(g) => {
                let chain = choose|chain: Seq<FileId>|
                    #[trigger] reexport_chain(parsed@, symbol@, resolve, chain)
                    && chain[0] == target
                    && chain.len() <= MAX_REEXPORT_DEPTH
                    && chain.last() == g
                    && parsed@.contains_key(g.0)
                    && defines(parsed@[g.0].exports@, symbol@);
                lemma_chain_as_step(parsed@, symbol@, resolve, step, chain);
                assert(barrel_end(parsed@, symbol@, step, target, end));
                lemma_barrel_end_unique(parsed@, symbol@, step, target, end);
            },
            None => {
                let chain = choose|chain: Seq<FileId>|
                    #[trigger] reexport_chain(parsed@, symbol@, resolve, chain)
                    && chain[0] == target
                    && (chain.len() == MAX_REEXPORT_DEPTH + 1
                        || chain.len() <= MAX_REEXPORT_DEPTH
                        && reexport_dead_end(parsed@, symbol@, resolve, chain));
                lemma_chain_as_step(parsed@, symbol@, resolve, step, chain);
                if chain.len() != MAX_REEXPORT_DEPTH + 1 {
                    lemma_dead_end_as_step(parsed@, symbol@, resolve, step, chain);
                }
                assert(barrel_end(parsed@, symbol@, step, target, end));
                lemma_barrel_end_unique(parsed@, symbol@, step, target, end);
            },
        }
    }
    match end {
        Some(g) => (g, EdgeKind::Import),
        None => (target, EdgeKind::ViaBarrel),
    }
}

/// The languages that have a resolver.
pub open spec fn resolvable(l: Language) -> bool {
    seq![Language::TypeScript, Language::Tsx, Language::JavaScript, Language::Jsx, Language::Rust, Language::Python, Language::Go].contains(l)
}

/// The names an import brings in, as text; none unless it names them.
pub open spec fn named_texts(names: ImportedNames) -> Seq<Seq<char>> {
    match names {
        ImportedNames::Named(v) => v@.map_values(|s: String| s@),
        _ => Seq::empty(),
    }
}

/// The scope an import was written in, as text.
pub open spec fn scope_text(scope: Option<String>) -> Option<Seq<char>> {
    match scope {
        Some(s) => Some(s@),
        None => None,
    }
}

/// What the resolver of `language` makes of `import` written in the file at
/// `from_path`: the file and whether letter case matched exactly, or why
/// there is none.
pub open spec fn direct_outcome(paths: Seq<Seq<char>>, projects: Projects, language: Language, from_path: Seq<char>, import: RawImport) -> Result<(FileId, bool), ReasonView> {
    let s = import.specifier@;
    let exact = |r: Result<FileId, ReasonView>| match r {
        Ok(id) => Ok((id, true)),
        Err(e) => Err(e),
    };
    match language {
        Language::Rust => exact(rust_outcome(paths, from_path, s, import.kind == ImportKind::ModDecl, scope_text(import.scope), projects.rust)),
        Language::Python => exact(py_outcome(paths, from_path, s, named_texts(import.names), projects.python.roots@.map_values(|r: String| r@))),
        Language::Go => exact(go_outcome(paths, from_path, s, projects.go.modules@)),
        _ => js_outcome(paths, from_path, s, projects.js),
    }
}

/// What became of one import.
pub enum ImportFate {
    /// Left out: a type-only import when those are not wanted.
    Skipped,
    /// It leads to no file in the scan.
    Unresolved(UnresolvedReason),
    /// The resolver found `direct` (`exact` when letter case matched), and
    /// following barrels leads to `end` by an edge of kind `kind`.
    Resolved { direct: FileId, exact: bool, end: FileId, kind: EdgeKind },
}

/// What became of one import, with the reason taken by its view.
pub enum FateView {
    Skipped,
    Unresolved(ReasonView),
    Resolved { direct: FileId, exact: bool, end: FileId, kind: EdgeKind },
}

impl View for ImportFate {
    type V = FateView;

    open spec fn view(&self) -> FateView {
        match self {
            ImportFate::Skipped => FateView::Skipped,
            ImportFate::Unresolved(r) => FateView::Unresolved(r@),
            ImportFate::Resolved { direct, exact, end, kind } => FateView::Resolved { direct: *direct, exact: *exact, end: *end, kind: *kind },
        }
    }
}

/// What becomes of `import`, written in a file at `from_path` in `language`:
/// a type-only import is skipped unless those are wanted, a language without
/// a resolver leaves it unresolved, and otherwise the resolver decides, and
/// a file it finds is followed through barrels.
pub open spec fn fate_of(
    parsed: Map<u32, ParsedFile>,
    paths: Seq<Seq<char>>,
    projects: Projects,
    language: Language,
    from_path: Seq<char>,
    import: RawImport,
    include_type_only: bool,
) -> FateView {
    if import.type_only && !include_type_only {
        FateView::Skipped
    } else if !resolvable(language) {
        FateView::Unresolved(ReasonView::NoResolverForLanguage(language))
    } else {
        match direct_outcome(paths, projects, language, from_path, import) {
            Err(e) => FateView::Unresolved(e),
            Ok(h) => {
                let b = barrel_target(parsed, paths, projects, language, h.0, import.names);
                FateView::Resolved { direct: h.0, exact: h.1, end: b.0, kind: b.1 }
            },
        }
    }
}

/// Decides what becomes of one import of the file at `from_path`.
pub fn resolve_import(
    from_path: &str,
    language: Language,
    import: &RawImport,
    include_type_only: bool,
    parsed: &HashMap<u32, ParsedFile>,
    index: &FileIndex,
    projects: &Projects,
) -> (r: ImportFate)
    requires
        index.wf(),
    ensures
        r@ == fate_of(parsed@, index.path_texts(), *projects, language, from_path@, *import, include_type_only),
{
    if import.type_only && !include_type_only {
        return ImportFate::Skipped;
    }
    if !language.has_resolver() {
        return ImportFate::Unresolved(UnresolvedReason::NoResolverForLanguage(language));
    }
    let spec = import.specifier.as_str();
    let direct: Result<(FileId, bool), UnresolvedReason> = match language {
        Language::Rust => {
            let scope: Option<&str> = match &import.scope {
                Some(s) => Some(s.as_str()),
                None => None,
            };
            match crate::resolve::rust::resolve_specifier_scoped(from_path, spec, import.kind == ImportKind::ModDecl, scope, index, &projects.rust) {
                Ok(id) => Ok((id, true)),
                Err(e) => Err(e),
            }
        },
        Language::Python => {
            let empty: Vec<String> = Vec::new();
            let names: &[String] = match &import.names {
                ImportedNames::Named(v) => v.as_slice(),
                _ => empty.as_slice(),
            };
            assert(names@.map_values(|s: String| s@) =~= named_texts(import.names));
            match crate::resolve::python::resolve_specifier(from_path, spec, names, index, &projects.python) {
                Ok(id) => Ok((id, true)),
                Err(e) => Err(e),
            }
        },
        Language::Go => match crate::resolve::go::resolve_specifier(from_path, spec, index, &projects.go) {
            Ok(id) => Ok((id, true)),
            Err(e) => Err(e),
        },
        _ => crate::resolve::javascript::resolve_specifier_cased(from_path, spec, index, &projects.js),
    };
    assert(result_view(direct) == direct_outcome(index.path_texts(), *projects, language, from_path@, *import));
    match direct {
        Err(e) => ImportFate::Unresolved(e),
        Ok(h) => {
            let b = see_through_barrel(h.0, &import.names, parsed, index, projects, language);
            ImportFate::Resolved { direct: h.0, exact: h.1, end: b.0, kind: b.1 }
        },
    }
}

/// The imports of file `i`; none when it was not parsed.
pub open spec fn imports_of(parsed: Map<u32, ParsedFile>, i: int) -> Seq<RawImport> {
    if parsed.contains_key(i as u32) {
        parsed[i as u32].imports@
    } else {
        Seq::empty()
    }
}

/// Each import of file `i` with its file and its place in the file.
pub open spec fn file_records(parsed: Map<u32, ParsedFile>, i: int) -> Seq<(FileId, int, RawImport)> {
    Seq::new(imports_of(parsed, i).len(), |k: int| (FileId(i as u32), k, imports_of(parsed, i)[k]))
}

/// The imports of the first `n` files, file by file, in order.
pub open spec fn records(parsed: Map<u32, ParsedFile>, n: nat) -> Seq<(FileId, int, RawImport)>
    decreases n,
{
    if n == 0 {
        Seq::empty()
    } else {
        records(parsed, (n - 1) as nat) + file_records(parsed, n - 1)
    }
}

/// What becomes of one import of the scan.
pub open spec fn record_fate(
    parsed: Map<u32, ParsedFile>,
    paths: Seq<Seq<char>>,
    languages: Seq<Language>,
    projects: Projects,
    include_type_only: bool,
    rec: (FileId, int, RawImport),
) -> FateView {
    fate_of(parsed, paths, projects, languages[rec.0.0 as int], paths[rec.0.0 as int], rec.2, include_type_only)
}

/// What the imports in `recs` contribute to the graph, in order: edges, the
/// import each edge came from, unresolved imports, and imports that resolved
/// only when letter case was ignored.
pub open spec fn contributions(
    parsed: Map<u32, ParsedFile>,
    paths: Seq<Seq<char>>,
    languages: Seq<Language>,
    projects: Projects,
    include_type_only: bool,
    recs: Seq<(FileId, int, RawImport)>,
) -> (Seq<Edge>, Seq<EdgeSite>, Seq<(FileId, Seq<char>, u32, ReasonView)>, Seq<(FileId, Seq<char>, u32, Seq<char>)>)
    decreases recs.len(),
{
    if recs.len() == 0 {
        (Seq::empty(), Seq::empty(), Seq::empty(), Seq::empty())
    } else {
        let p = contributions(parsed, paths, languages, projects, include_type_only, recs.drop_last());
        let rec = recs.last();
        let from = rec.0;
        let imp = rec.2;
        match record_fate(parsed, paths, languages, projects, include_type_only, rec) {
            FateView::Skipped => p,
            FateView::Unresolved(e) => (p.0, p.1, p.2.push((from, imp.specifier@, imp.line, e)), p.3),
            FateView::Resolved { direct, exact, end, kind } => {
                let m = if exact {
                    p.3
                } else {
                    p.3.push((from, imp.specifier@, imp.line, if direct.0 < paths.len() { paths[direct.0 as int] } else { Seq::empty() }))
                };
                if end == from {
                    (p.0, p.1, p.2, m)
                } else {
                    let k = if imp.kind == ImportKind::ModDecl { EdgeKind::Contains } else { kind };
                    (p.0.push(Edge { from, to: end, kind: k }), p.1.push(EdgeSite { from, to: end, import: rec.1 as u32 }), p.2, m)
                }
            },
        }
    }
}

/// An unresolved import taken by its view.
pub open spec fn unresolved_view(u: UnresolvedImport) -> (FileId, Seq<char>, u32, ReasonView) {
    (u.from, u.specifier@, u.line, u.reason@)
}

/// A case mismatch taken by its view.
pub open spec fn mismatch_view(c: CaseMismatch) -> (FileId, Seq<char>, u32, Seq<char>) {
    (c.from, c.specifier@, c.line, c.actual@)
}

/// The graph's edges and unresolved imports, before they are put in order.
pub struct Contributions {
    pub edges: Vec<Edge>,
    pub edge_sites: Vec<EdgeSite>,
    pub unresolved: Vec<UnresolvedImport>,
    pub case_mismatches: Vec<CaseMismatch>,
}

proof fn lemma_records_step(parsed: Map<u32, ParsedFile>, i: nat, k: int)
    requires
        0 <= k < imports_of(parsed, i as int).len(),
    ensures
        (records(parsed, i) + file_records(parsed, i as int).take(k + 1)).drop_last()
            == records(parsed, i) + file_records(parsed, i as int).take(k),
        (records(parsed, i) + file_records(parsed, i as int).take(k + 1)).last()
            == (FileId(i as u32), k, imports_of(parsed, i as int)[k]),
{
    assert((records(parsed, i) + file_records(parsed, i as int).take(k + 1)).drop_last()
        =~= records(parsed, i) + file_records(parsed, i as int).take(k));
}

/// Resolves every import of every scanned file, in file order and import
/// order. `parsed` holds what each file declares, keyed by file id.
pub fn contributions_of(
    parsed: &HashMap<u32, ParsedFile>,
    index: &FileIndex,
    projects: &Projects,
    include_type_only: bool,
) -> (r: Contributions)
    requires
        index.wf(),
        index.language_seq().len() == index.path_texts().len(),
    ensures
        ({
            let c = contributions(parsed@, index.path_texts(), index.language_seq(), *projects, include_type_only,
                records(parsed@, index.path_texts().len()));
            &&& r.edges@ == c.0
            &&& r.edge_sites@ == c.1
            &&& r.unresolved@.map_values(|u: UnresolvedImport| unresolved_view(u)) == c.2
            &&& r.case_mismatches@.map_values(|m: CaseMismatch| mismatch_view(m)) == c.3
        }),
{
    broadcast use vstd::std_specs::hash::group_hash_axioms;
    let ghost paths = index.path_texts();
    let ghost langs = index.language_seq();
    let mut edges: Vec<Edge> = Vec::new();
    let mut sites: Vec<EdgeSite> = Vec::new();
    let mut unresolved: Vec<UnresolvedImport> = Vec::new();
    let mut mismatches: Vec<CaseMismatch> = Vec::new();
    let n = index.len();
    proof { index.lemma_ids_fit(); }
    let mut i: usize = 0;
    while i < n
        invariant
            index.wf(),
            n == paths.len(),
            paths == index.path_texts(),
            langs == index.language_seq(),
            langs.len() == paths.len(),
            n <= u32::MAX,
            i <= n,
            ({
                let c = contributions(parsed@, paths, langs, *projects, include_type_only, records(parsed@, i as nat));
                &&& edges@ == c.0
                &&& sites@ == c.1
                &&& unresolved@.map_values(|u: UnresolvedImport| unresolved_view(u)) == c.2
                &&& mismatches@.map_values(|m: CaseMismatch| mismatch_view(m)) == c.3
            }),
        decreases n - i,
    {
        let from = FileId(i as u32);
        let from_path = index.path(from).unwrap();
        let language = index.language_at(i);
        let empty: Vec<RawImport> = Vec::new();
        let imports: &Vec<RawImport> = match parsed.get(&(i as u32)) {
            Some(p) => &p.imports,
            None => &empty,
        };
        assert(imports@ == imports_of(parsed@, i as int));
        assert(file_records(parsed@, i as int).take(0) =~= Seq::<(FileId, int, RawImport)>::empty());
        assert(records(parsed@, i as nat) + file_records(parsed@, i as int).take(0) =~= records(parsed@, i as nat));
        let mut k: usize = 0;
        while k < imports.len()
            invariant
                index.wf(),
                n == paths.len(),
                paths == index.path_texts(),
                langs == index.language_seq(),
                langs.len() == paths.len(),
                n <= u32::MAX,
                i < n,
                from == FileId(i as u32),
                from_path@ == paths[i as int],
                language == langs[i as int],
                imports@ == imports_of(parsed@, i as int),
                k <= imports@.len(),
                ({
                    let c = contributions(parsed@, paths, langs, *projects, include_type_only,
                        records(parsed@, i as nat) + file_records(parsed@, i as int).take(k as int));
                    &&& edges@ == c.0
                    &&& sites@ == c.1
                    &&& unresolved@.map_values(|u: UnresolvedImport| unresolved_view(u)) == c.2
                    &&& mismatches@.map_values(|m: CaseMismatch| mismatch_view(m)) == c.3
                }),
            decreases imports@.len() - k,
        {
            proof { lemma_records_step(parsed@, i as nat, k as int); }
            let import = &imports[k];
            let ghost before_u = unresolved@.map_values(|u: UnresolvedImport| unresolved_view(u));
            let ghost before_m = mismatches@.map_values(|m: CaseMismatch| mismatch_view(m));
            let fate = resolve_import(from_path, language, import, include_type_only, parsed, index, projects);
            match fate {
                ImportFate::Skipped => {},
                ImportFate::Unresolved(reason) => {
                    let u = UnresolvedImport { from, specifier: import.specifier.clone(), line: import.line, reason };
                    unresolved.push(u);
                    assert(unresolved@.map_values(|u: UnresolvedImport| unresolved_view(u)) =~= before_u.push(unresolved_view(u)));
                },
                ImportFate::Resolved { direct, exact, end, kind } => {
                    if !exact {
                        let actual = match index.path(direct) {
                            Some(p) => crate::text::owned(p),
                            None => String::new(),
                        };
                        let m = CaseMismatch { from, specifier: import.specifier.clone(), line: import.line, actual };
                        mismatches.push(m);
                        assert(mismatches@.map_values(|m: CaseMismatch| mismatch_view(m)) =~= before_m.push(mismatch_view(m)));
                    }
                    if end.0 != from.0 {
                        let k2 = if import.kind == ImportKind::ModDecl { EdgeKind::Contains } else { kind };
                        edges.push(Edge { from, to: end, kind: k2 });
                        sites.push(EdgeSite { from, to: end, import: k as u32 });
                    }
                },
            }
            k += 1;
        }
        assert(file_records(parsed@, i as int).take(k as int) =~= file_records(parsed@, i as int));
        assert(records(parsed@, (i + 1) as nat) == records(parsed@, i as nat) + file_records(parsed@, i as int));
        i += 1;
    }
    Contributions { edges, edge_sites: sites, unresolved, case_mismatches: mismatches }
}

/// `s` without elements equal to the one just before them.
pub open spec fn dedup<T>(s: Seq<T>) -> Seq<T>
    decreases s.len(),
{
    if s.len() == 0 {
        s
    } else {
        let p = dedup(s.drop_last());
        if p.len() > 0 && p.last() == s.last() {
            p
        } else {
            p.push(s.last())
        }
    }
}

/// The order of edge kinds when edges are sorted.
pub open spec fn kind_rank(k: EdgeKind) -> int {
    match k {
        EdgeKind::Import => 0,
        EdgeKind::ViaBarrel => 1,
        EdgeKind::CoChange => 2,
        EdgeKind::Contains => 3,
    }
}

/// Edges are ordered by source, then target, then kind.
pub open spec fn edge_before(a: Edge, b: Edge) -> bool {
    a.from.0 < b.from.0 || (a.from.0 == b.from.0 && (a.to.0 < b.to.0 || (a.to.0 == b.to.0 && kind_rank(a.kind) < kind_rank(b.kind))))
}

fn rank_of(k: EdgeKind) -> (r: u8)
    ensures
        r == kind_rank(k),
{
    match k {
        EdgeKind::Import => 0,
        EdgeKind::ViaBarrel => 1,
        EdgeKind::CoChange => 2,
        EdgeKind::Contains => 3,
    }
}

fn edge_is_before(a: &Edge, b: &Edge) -> (r: bool)
    ensures
        r == edge_before(*a, *b),
{
    a.from.0 < b.from.0 || (a.from.0 == b.from.0 && (a.to.0 < b.to.0 || (a.to.0 == b.to.0 && rank_of(a.kind) < rank_of(b.kind))))
}

/// The edges sorted by source, target and kind, each edge once.
pub fn sorted_edges(edges: Vec<Edge>) -> (r: Vec<Edge>)
    ensures
        r@ == dedup(stable_sorted(edges@, |a: Edge, b: Edge| edge_before(a, b))),
{
    let ghost before = |a: Edge, b: Edge| edge_before(a, b);
    let ghost raw = edges@;
    let total = edges.len();
    let mut rest = edges;
    let mut sorted: Vec<Edge> = Vec::new();
    let mut taken: usize = 0;
    while rest.len() > 0
        invariant
            total == raw.len(),
            taken <= raw.len(),
            rest@ == raw.skip(taken as int),
            before == |a: Edge, b: Edge| edge_before(a, b),
            sorted@ == stable_sorted(raw.take(taken as int), before),
        decreases rest@.len(),
    {
        let x = rest.remove(0);
        assert(raw.take(taken + 1).drop_last() == raw.take(taken as int));
        assert(raw.take(taken + 1).last() == x);
        let ghost s = sorted@;
        let mut count: usize = 0;
        let mut k: usize = 0;
        while k < sorted.len()
            invariant
                k <= sorted@.len(),
                s == sorted@,
                before == |a: Edge, b: Edge| edge_before(a, b),
                count == count_not_before(s.take(k as int), x, before),
                count <= k,
            decreases sorted@.len() - k,
        {
            assert(s.take(k + 1).drop_last() == s.take(k as int));
            if !edge_is_before(&x, &sorted[k]) {
                count += 1;
            }
            k += 1;
        }
        assert(s.take(k as int) == s);
        sorted.insert(count, x);
        taken += 1;
        assert(rest@ =~= raw.skip(taken as int));
    }
    assert(raw.take(taken as int) =~= raw);
    let mut out: Vec<Edge> = Vec::new();
    let mut i: usize = 0;
    let ghost ss = sorted@;
    while i < sorted.len()
        invariant
            i <= ss.len(),
            ss == sorted@,
            out@ == dedup(ss.take(i as int)),
        decreases ss.len() - i,
    {
        assert(ss.take(i + 1).drop_last() == ss.take(i as int));
        let e = sorted[i];
        let n = out.len();
        if n > 0 && out[n - 1] == e {
        } else {
            out.push(e);
        }
        i += 1;
    }
    assert(ss.take(i as int) == ss);
    out
}

/// Imports are listed by file, then line, then specifier.
pub open spec fn site_before(af: FileId, al: u32, a_spec: Seq<char>, bf: FileId, bl: u32, b_spec: Seq<char>) -> bool {
    af.0 < bf.0 || (af.0 == bf.0 && (al < bl || (al == bl && str_before(a_spec, b_spec, false))))
}

fn site_is_before(af: FileId, al: u32, a_spec: &str, bf: FileId, bl: u32, b_spec: &str) -> (r: bool)
    ensures
        r == site_before(af, al, a_spec@, bf, bl, b_spec@),
{
    af.0 < bf.0 || (af.0 == bf.0 && (al < bl || (al == bl && crate::order::is_before(a_spec, b_spec, false))))
}

/// The order of unresolved imports, on their views.
pub open spec fn unresolved_before(a: (FileId, Seq<char>, u32, ReasonView), b: (FileId, Seq<char>, u32, ReasonView)) -> bool {
    site_before(a.0, a.2, a.1, b.0, b.2, b.1)
}

/// The order of case mismatches, on their views.
pub open spec fn mismatch_before(a: (FileId, Seq<char>, u32, Seq<char>), b: (FileId, Seq<char>, u32, Seq<char>)) -> bool {
    site_before(a.0, a.2, a.1, b.0, b.2, b.1)
}

/// The unresolved imports in order of file, line and specifier; imports
/// that tie keep their order.
pub fn sorted_unresolved(items: Vec<UnresolvedImport>) -> (r: Vec<UnresolvedImport>)
    ensures
        r@.map_values(|u: UnresolvedImport| unresolved_view(u)) == stable_sorted(
            items@.map_values(|u: UnresolvedImport| unresolved_view(u)),
            |a: (FileId, Seq<char>, u32, ReasonView), b: (FileId, Seq<char>, u32, ReasonView)| unresolved_before(a, b),
        ),
{
    let ghost before = |a: (FileId, Seq<char>, u32, ReasonView), b: (FileId, Seq<char>, u32, ReasonView)| unresolved_before(a, b);
    let ghost raw = items@.map_values(|u: UnresolvedImport| unresolved_view(u));
    let total = items.len();
    let mut rest = items;
    let mut sorted: Vec<UnresolvedImport> = Vec::new();
    let mut taken: usize = 0;
    while rest.len() > 0
        invariant
            total == raw.len(),
            taken <= raw.len(),
            rest@.map_values(|u: UnresolvedImport| unresolved_view(u)) == raw.skip(taken as int),
            before == |a: (FileId, Seq<char>, u32, ReasonView), b: (FileId, Seq<char>, u32, ReasonView)| unresolved_before(a, b),
            sorted@.map_values(|u: UnresolvedImport| unresolved_view(u)) == stable_sorted(raw.take(taken as int), before),
        decreases rest@.len(),
    {
        let ghost rv = rest@.map_values(|u: UnresolvedImport| unresolved_view(u));
        let ghost old_rest = rest@;
        let x = rest.remove(0);
        assert(rest@ =~= old_rest.skip(1));
        assert(rest@.map_values(|u: UnresolvedImport| unresolved_view(u)) =~= rv.skip(1));
        let ghost xv = unresolved_view(x);
        assert(rv[0] == xv);
        assert(rv.len() == rest@.len() + 1);
        assert(taken < raw.len());
        assert(raw.skip(taken as int)[0] == raw[taken as int]);
        assert(raw.take(taken + 1).drop_last() == raw.take(taken as int));
        assert(raw.take(taken + 1).last() == xv);
        let ghost s = sorted@.map_values(|u: UnresolvedImport| unresolved_view(u));
        let mut count: usize = 0;
        let mut k: usize = 0;
        while k < sorted.len()
            invariant
                k <= sorted@.len(),
                s == sorted@.map_values(|u: UnresolvedImport| unresolved_view(u)),
                before == |a: (FileId, Seq<char>, u32, ReasonView), b: (FileId, Seq<char>, u32, ReasonView)| unresolved_before(a, b),
                xv == unresolved_view(x),
                count == count_not_before(s.take(k as int), xv, before),
                count <= k,
            decreases sorted@.len() - k,
        {
            assert(s.take(k + 1).drop_last() == s.take(k as int));
            assert(s[k as int] == unresolved_view(sorted@[k as int]));
            let y = &sorted[k];
            if !site_is_before(x.from, x.line, x.specifier.as_str(), y.from, y.line, y.specifier.as_str()) {
                count += 1;
            }
            k += 1;
        }
        assert(s.take(k as int) == s);
        sorted.insert(count, x);
        assert(sorted@.map_values(|u: UnresolvedImport| unresolved_view(u)) =~= s.insert(count as int, xv));
        taken += 1;
        assert(rest@.map_values(|u: UnresolvedImport| unresolved_view(u)) =~= raw.skip(taken as int));
    }
    assert(raw.take(taken as int) =~= raw);
    sorted
}

/// The case mismatches in order of file, line and specifier, each once.
pub fn sorted_mismatches(items: Vec<CaseMismatch>) -> (r: Vec<CaseMismatch>)
    ensures
        r@.map_values(|m: CaseMismatch| mismatch_view(m)) == dedup(stable_sorted(
            items@.map_values(|m: CaseMismatch| mismatch_view(m)),
            |a: (FileId, Seq<char>, u32, Seq<char>), b: (FileId, Seq<char>, u32, Seq<char>)| mismatch_before(a, b),
        )),
{
    let ghost before = |a: (FileId, Seq<char>, u32, Seq<char>), b: (FileId, Seq<char>, u32, Seq<char>)| mismatch_before(a, b);
    let ghost raw = items@.map_values(|m: CaseMismatch| mismatch_view(m));
    let total = items.len();
    let mut rest = items;
    let mut sorted: Vec<CaseMismatch> = Vec::new();
    let mut taken: usize = 0;
    while rest.len() > 0
        invariant
            total == raw.len(),
            taken <= raw.len(),
            rest@.map_values(|m: CaseMismatch| mismatch_view(m)) == raw.skip(taken as int),
            before == |a: (FileId, Seq<char>, u32, Seq<char>), b: (FileId, Seq<char>, u32, Seq<char>)| mismatch_before(a, b),
            sorted@.map_values(|m: CaseMismatch| mismatch_view(m)) == stable_sorted(raw.take(taken as int), before),
        decreases rest@.len(),
    {
        let ghost rv = rest@.map_values(|m: CaseMismatch| mismatch_view(m));
        let ghost old_rest = rest@;
        let x = rest.remove(0);
        assert(rest@ =~= old_rest.skip(1));
        assert(rest@.map_values(|m: CaseMismatch| mismatch_view(m)) =~= rv.skip(1));
        let ghost xv = mismatch_view(x);
        assert(rv[0] == xv);
        assert(rv.len() == rest@.len() + 1);
        assert(taken < raw.len());
        assert(raw.skip(taken as int)[0] == raw[taken as int]);
        assert(raw.take(taken + 1).drop_last() == raw.take(taken as int));
        assert(raw.take(taken + 1).last() == xv);
        let ghost s = sorted@.map_values(|m: CaseMismatch| mismatch_view(m));
        let mut count: usize = 0;
        let mut k: usize = 0;
        while k < sorted.len()
            invariant
                k <= sorted@.len(),
                s == sorted@.map_values(|m: CaseMismatch| mismatch_view(m)),
                before == |a: (FileId, Seq<char>, u32, Seq<char>), b: (FileId, Seq<char>, u32, Seq<char>)| mismatch_before(a, b),
                xv == mismatch_view(x),
                count == count_not_before(s.take(k as int), xv, before),
                count <= k,
            decreases sorted@.len() - k,
        {
            assert(s.take(k + 1).drop_last() == s.take(k as int));
            assert(s[k as int] == mismatch_view(sorted@[k as int]));
            let y = &sorted[k];
            if !site_is_before(x.from, x.line, x.specifier.as_str(), y.from, y.line, y.specifier.as_str()) {
                count += 1;
            }
            k += 1;
        }
        assert(s.take(k as int) == s);
        sorted.insert(count, x);
        assert(sorted@.map_values(|m: CaseMismatch| mismatch_view(m)) =~= s.insert(count as int, xv));
        taken += 1;
        assert(rest@.map_values(|m: CaseMismatch| mismatch_view(m)) =~= raw.skip(taken as int));
    }
    assert(raw.take(taken as int) =~= raw);
    let ghost ss = sorted@.map_values(|m: CaseMismatch| mismatch_view(m));
    let mut out: Vec<CaseMismatch> = Vec::new();
    let mut rest = sorted;
    let mut i: usize = 0;
    let n = rest.len();
    while rest.len() > 0
        invariant
            n == ss.len(),
            i <= ss.len(),
            rest@.map_values(|m: CaseMismatch| mismatch_view(m)) == ss.skip(i as int),
            out@.map_values(|m: CaseMismatch| mismatch_view(m)) == dedup(ss.take(i as int)),
        decreases rest@.len(),
    {
        let ghost rv = rest@.map_values(|m: CaseMismatch| mismatch_view(m));
        let ghost ov = out@.map_values(|m: CaseMismatch| mismatch_view(m));
        let ghost old_rest = rest@;
        let e = rest.remove(0);
        assert(rest@ =~= old_rest.skip(1));
        assert(rest@.map_values(|m: CaseMismatch| mismatch_view(m)) =~= rv.skip(1));
        assert(rv[0] == mismatch_view(e));
        assert(rv.len() == rest@.len() + 1);
        assert(i < ss.len());
        assert(ss.skip(i as int)[0] == ss[i as int]);
        assert(ss.take(i + 1).drop_last() == ss.take(i as int));
        assert(ss.take(i + 1).last() == mismatch_view(e));
        let o = out.len();
        let same = o > 0 && {
            let last = &out[o - 1];
            last.from.0 == e.from.0 && last.line == e.line && crate::text::str_eq(last.specifier.as_str(), e.specifier.as_str())
                && crate::text::str_eq(last.actual.as_str(), e.actual.as_str())
        };
        if o > 0 {
            assert(ov.last() == mismatch_view(out@[o - 1]));
        }
        if !same {
            out.push(e);
            assert(out@.map_values(|m: CaseMismatch| mismatch_view(m)) =~= ov.push(mismatch_view(e)));
        }
        i += 1;
        assert(rest@.map_values(|m: CaseMismatch| mismatch_view(m)) =~= ss.skip(i as int));
    }
    assert(ss.take(i as int) =~= ss);
    out
}

/// The directory of every path.
pub open spec fn dirs_of(paths: Seq<Seq<char>>) -> Seq<Seq<char>> {
    paths.map_values(|p: Seq<char>| before_last(p, '/'))
}

/// The files among the first `n` paths that sit directly in `dir`, in order.
pub open spec fn files_in(paths: Seq<Seq<char>>, dir: Seq<char>, n: nat) -> Seq<FileId>
    decreases n,
{
    if n == 0 {
        Seq::empty()
    } else {
        let p = files_in(paths, dir, (n - 1) as nat);
        if before_last(paths[n - 1], '/') == dir {
            p.push(FileId((n - 1) as u32))
        } else {
            p
        }
    }
}

/// One module per directory that holds a file, in byte order of the
/// directory, numbered in that order, each with its files in order; and the
/// module of each file.
pub open spec fn modules_ok(paths: Seq<Seq<char>>, modules: Seq<ModuleNode>, module_of: Seq<ModuleId>) -> bool {
    let dirs = modules.map_values(|m: ModuleNode| m.path@);
    &&& strictly_sorted(dirs, false)
    &&& dirs.to_set() == dirs_of(paths).to_set()
    &&& forall|m: int| 0 <= m < modules.len() ==> (#[trigger] modules[m]).id == ModuleId(m as u32)
        && modules[m].files@ == files_in(paths, modules[m].path@, paths.len())
    &&& module_of.len() == paths.len()
    &&& forall|i: int| 0 <= i < paths.len() ==> 0 <= (#[trigger] module_of[i]).0 < modules.len()
        && modules[module_of[i].0 as int].path@ == before_last(paths[i], '/')
}

/// Groups files into modules by directory.
pub fn build_modules(paths: &[String]) -> (r: (Vec<ModuleNode>, Vec<ModuleId>))
    requires
        paths@.len() <= u32::MAX,
    ensures
        modules_ok(paths@.map_values(|p: String| p@), r.0@, r.1@),
{
    let ghost ps = paths@.map_values(|p: String| p@);
    let n = paths.len();
    let mut dir_texts: Vec<Vec<char>> = Vec::new();
    let mut dirs: Vec<String> = Vec::new();
    let mut i: usize = 0;
    while i < n
        invariant
            n == ps.len(),
            ps == paths@.map_values(|p: String| p@),
            i <= n,
            dir_texts@.len() == i,
            forall|k: int| 0 <= k < i ==> #[trigger] dir_texts@[k]@ == before_last(ps[k], '/'),
            strictly_sorted(dirs@.map_values(|s: String| s@), false),
            dirs@.map_values(|s: String| s@).to_set() == dirs_of(ps.take(i as int)).to_set(),
        decreases n - i,
    {
        let p = chars_of(paths[i].as_str());
        let d = crate::resolve::javascript::parent_dir(p.as_slice());
        let ds = string_of(d.as_slice());
        assert(ps[i as int] == paths@[i as int]@);
        insert_sorted(&mut dirs, ds, false);
        dir_texts.push(d);
        assert(dirs_of(ps.take(i + 1)) =~= dirs_of(ps.take(i as int)).push(before_last(ps[i as int], '/')));
        proof { crate::text::lemma_push_to_set(dirs_of(ps.take(i as int)), before_last(ps[i as int], '/')); }
        i += 1;
    }
    assert(ps.take(n as int) =~= ps);
    let ghost dv = dirs@.map_values(|s: String| s@);
    let mut modules: Vec<ModuleNode> = Vec::new();
    let mut m: usize = 0;
    assert(dv.len() <= u32::MAX) by {
        assert(dv.to_set() == dirs_of(ps).to_set());
        lemma_sorted_unique(dv);
        dv.unique_seq_to_set();
        dirs_of(ps).lemma_cardinality_of_set();
    }
    while m < dirs.len()
        invariant
            n == ps.len(),
            n <= u32::MAX,
            dv == dirs@.map_values(|s: String| s@),
            dv.len() <= u32::MAX,
            m <= dv.len(),
            dir_texts@.len() == n,
            forall|k: int| 0 <= k < n ==> #[trigger] dir_texts@[k]@ == before_last(ps[k], '/'),
            modules@.len() == m,
            forall|q: int| 0 <= q < m ==> (#[trigger] modules@[q]).id == ModuleId(q as u32)
                && modules@[q].path@ == dv[q]
                && modules@[q].files@ == files_in(ps, dv[q], n as nat),
        decreases dv.len() - m,
    {
        let dchars = chars_of(dirs[m].as_str());
        let mut files: Vec<FileId> = Vec::new();
        let mut j: usize = 0;
        while j < n
            invariant
                n == ps.len(),
                n <= u32::MAX,
                j <= n,
                dir_texts@.len() == n,
                forall|k: int| 0 <= k < n ==> #[trigger] dir_texts@[k]@ == before_last(ps[k], '/'),
                files@ == files_in(ps, dchars@, j as nat),
            decreases n - j,
        {
            if chars_eq(dir_texts[j].as_slice(), dchars.as_slice()) {
                files.push(FileId(j as u32));
            }
            j += 1;
        }
        assert(dv[m as int] == dirs@[m as int]@);
        modules.push(ModuleNode { id: ModuleId(m as u32), path: string_of(dchars.as_slice()), files });
        m += 1;
    }
    let mut module_of: Vec<ModuleId> = Vec::new();
    let mut j: usize = 0;
    while j < n
        invariant
            n == ps.len(),
            j <= n,
            dv == dirs@.map_values(|s: String| s@),
            dv.len() <= u32::MAX,
            dv.to_set() == dirs_of(ps).to_set(),
            dir_texts@.len() == n,
            forall|k: int| 0 <= k < n ==> #[trigger] dir_texts@[k]@ == before_last(ps[k], '/'),
            modules@.len() == dv.len(),
            forall|q: int| 0 <= q < dv.len() ==> (#[trigger] modules@[q]).path@ == dv[q],
            module_of@.len() == j,
            forall|k: int| 0 <= k < j ==> 0 <= (#[trigger] module_of@[k]).0 < dv.len()
                && dv[module_of@[k].0 as int] == before_last(ps[k], '/'),
        decreases n - j,
    {
        assert(dirs_of(ps).to_set().contains(before_last(ps[j as int], '/'))) by {
            assert(dirs_of(ps)[j as int] == before_last(ps[j as int], '/'));
        }
        let ghost w = choose|w: int| 0 <= w < dv.len() && dv[w] == before_last(ps[j as int], '/');
        let mut q: usize = 0;
        let mut found = false;
        while !found && q < dirs.len()
            invariant
                j < n,
                dir_texts@.len() == n,
                q <= dv.len(),
                dv == dirs@.map_values(|s: String| s@),
                0 <= w < dv.len(),
                dv[w] == dir_texts@[j as int]@,
                found ==> q < dv.len() && dv[q as int] == dir_texts@[j as int]@,
                !found ==> forall|t: int| 0 <= t < q ==> dv[t] != dir_texts@[j as int]@,
            decreases dv.len() - q + if found { 0int } else { 1int },
        {
            let dc = chars_of(dirs[q].as_str());
            assert(dv[q as int] == dirs@[q as int]@);
            if chars_eq(dc.as_slice(), dir_texts[j].as_slice()) {
                found = true;
            } else {
                q += 1;
            }
        }
        assert(q < dv.len());
        module_of.push(ModuleId(q as u32));
        j += 1;
    }
    proof {
        assert(modules@.map_values(|m: ModuleNode| m.path@) =~= dv);
    }
    (modules, module_of)
}

/// In a strictly sorted list no entry occurs twice.
pub proof fn lemma_sorted_unique(s: Seq<Seq<char>>)
    requires
        strictly_sorted(s, false),
    ensures
        s.no_duplicates(),
{
    assert forall|i: int, j: int| 0 <= i < s.len() && 0 <= j < s.len() && i != j implies s[i] != s[j] by {
        if i < j {
            assert(str_before(s[i], s[j], false));
            crate::order::lemma_before_irreflexive(s[i], false);
        } else {
            assert(str_before(s[j], s[i], false));
            crate::order::lemma_before_irreflexive(s[j], false);
        }
    }
}

/// What is appended to a base path when looking on disk for the file an
/// import meant.
pub open spec fn disk_suffixes() -> Seq<Seq<char>> {
    seq![""@, ".ts"@, ".tsx"@, ".d.ts"@, ".js"@, ".jsx"@, ".mts"@, ".cts"@, ".mjs"@, ".cjs"@, ".rs"@,
        "/index.ts"@, "/index.tsx"@, "/index.js"@, "/index.jsx"@, "/mod.rs"@]
}

fn suffix_list() -> (v: Vec<&'static str>)
    ensures
        v@.map_values(|s: &str| s@) == disk_suffixes(),
{
    let v = vec!["", ".ts", ".tsx", ".d.ts", ".js", ".jsx", ".mts", ".cts", ".mjs", ".cjs", ".rs",
        "/index.ts", "/index.tsx", "/index.js", "/index.jsx", "/mod.rs"];
    assert(v@.map_values(|s: &str| s@) =~= disk_suffixes());
    v
}

/// Whether an unresolved import was looked for as a file.
pub open spec fn looked_for_file(r: ReasonView) -> bool {
    r is NoSuchFile || r is UnmatchedAlias
}

/// The bases to look for on disk: the alias and relative candidates of the
/// specifier, or else the specifier joined to the importing file's directory.
pub open spec fn disk_bases(from_path: Seq<char>, specifier: Seq<char>, project: JsProject) -> Seq<Seq<char>> {
    let c = candidates_of(from_path, specifier, project);
    if c.len() == 0 {
        seq![joined_rel(before_last(from_path, '/'), specifier)]
    } else {
        c
    }
}

/// Every non-empty base followed by every suffix, base by base.
pub open spec fn with_suffixes(bases: Seq<Seq<char>>) -> Seq<Seq<char>>
    decreases bases.len(),
{
    if bases.len() == 0 {
        Seq::empty()
    } else {
        let p = with_suffixes(bases.drop_last());
        let b = bases.last();
        if b.len() == 0 {
            p
        } else {
            p + disk_suffixes().map_values(|x: Seq<char>| b + x)
        }
    }
}

/// The repository-relative paths at which a file would show that an
/// unresolved import names a file the scan left out; none unless the import
/// was looked for as a file.
pub fn disk_candidates(from_path: &str, specifier: &str, reason: &UnresolvedReason, project: &JsProject) -> (r: Vec<String>)
    ensures
        r@.map_values(|s: String| s@) == if looked_for_file(reason@) {
            with_suffixes(disk_bases(from_path@, specifier@, *project))
        } else {
            Seq::empty()
        },
{
    let mut out: Vec<String> = Vec::new();
    match reason {
        UnresolvedReason::NoSuchFile(_) | UnresolvedReason::UnmatchedAlias(_) => {},
        _ => {
            assert(out@.map_values(|s: String| s@) =~= Seq::<Seq<char>>::empty());
            return out;
        },
    }
    let mut bases = crate::resolve::javascript::candidate_paths(from_path, specifier, project);
    if bases.len() == 0 {
        let fp = chars_of(from_path);
        let dir = crate::resolve::javascript::parent_dir(fp.as_slice());
        let d = string_of(dir.as_slice());
        bases.push(crate::resolve::javascript::join_rel(d.as_str(), specifier));
    }
    let ghost bv = bases@.map_values(|s: String| s@);
    assert(bv =~= disk_bases(from_path@, specifier@, *project));
    let suffixes = suffix_list();
    let mut i: usize = 0;
    while i < bases.len()
        invariant
            i <= bv.len(),
            bv == bases@.map_values(|s: String| s@),
            suffixes@.map_values(|s: &str| s@) == disk_suffixes(),
            out@.map_values(|s: String| s@) == with_suffixes(bv.take(i as int)),
        decreases bv.len() - i,
    {
        assert(bv.take(i + 1).drop_last() == bv.take(i as int));
        assert(bv.take(i + 1).last() == bases@[i as int]@);
        let base = bases[i].as_str();
        let bc = chars_of(base);
        if bc.len() > 0 {
            let ghost start = out@.map_values(|s: String| s@);
            let mut k: usize = 0;
            while k < suffixes.len()
                invariant
                    k <= suffixes@.len(),
                    suffixes@.map_values(|s: &str| s@) == disk_suffixes(),
                    out@.map_values(|s: String| s@) == start + disk_suffixes().take(k as int).map_values(|x: Seq<char>| base@ + x),
                decreases suffixes@.len() - k,
            {
                let ghost before = out@.map_values(|s: String| s@);
                let c = crate::text::concat(base, suffixes[k]);
                out.push(c);
                assert(disk_suffixes()[k as int] == suffixes@[k as int]@);
                assert(out@.map_values(|s: String| s@) =~= before.push(base@ + disk_suffixes()[k as int]));
                assert(disk_suffixes().take(k + 1).map_values(|x: Seq<char>| base@ + x)
                    =~= disk_suffixes().take(k as int).map_values(|x: Seq<char>| base@ + x).push(base@ + disk_suffixes()[k as int]));
                k += 1;
            }
            assert(disk_suffixes().take(k as int) =~= disk_suffixes());
        }
        i += 1;
    }
    assert(bv.take(i as int) =~= bv);
    out
}

/// An import looked for as a file whose file exists on disk was left out of
/// the scan rather than missing; any other reason stands.
pub fn reclassify(specifier: &str, reason: UnresolvedReason, found_on_disk: bool) -> (r: UnresolvedReason)
    ensures
        r@ == if looked_for_file(reason@) && found_on_disk {
            ReasonView::ExcludedFromScan(specifier@)
        } else {
            reason@
        },
{
    match reason {
        UnresolvedReason::NoSuchFile(_) | UnresolvedReason::UnmatchedAlias(_) => {
            if found_on_disk {
                UnresolvedReason::ExcludedFromScan(crate::text::owned(specifier))
            } else {
                reason
            }
        },
        _ => reason,
    }
}


/// The modules a file declares with `mod`, in order.
pub open spec fn declared_mods(imports: Seq<RawImport>) -> Seq<Seq<char>>
    decreases imports.len(),
{
    if imports.len() == 0 {
        Seq::empty()
    } else {
        let p = declared_mods(imports.drop_last());
        if imports.last().kind == ImportKind::ModDecl { p.push(imports.last().specifier@) } else { p }
    }
}

/// Each file that declares modules, with what it declares, in file order.
pub open spec fn mod_decls_spec(paths: Seq<String>, parsed: Seq<ParsedFile>) -> Seq<(Seq<char>, Seq<Seq<char>>)>
    decreases parsed.len(),
{
    if parsed.len() == 0 || paths.len() < parsed.len() {
        Seq::empty()
    } else {
        let p = mod_decls_spec(paths, parsed.drop_last());
        let d = declared_mods(parsed.last().imports@);
        if d.len() > 0 { p.push((paths[parsed.len() - 1]@, d)) } else { p }
    }
}

fn declared_of(imports: &Vec<RawImport>) -> (r: Vec<String>)
    ensures
        r@.map_values(|s: String| s@) == declared_mods(imports@),
{
    let mut out: Vec<String> = Vec::new();
    let mut i: usize = 0;
    while i < imports.len()
        invariant
            i <= imports@.len(),
            out@.map_values(|s: String| s@) == declared_mods(imports@.take(i as int)),
        decreases imports@.len() - i,
    {
        assert(imports@.take(i + 1).drop_last() =~= imports@.take(i as int));
        let ghost before = out@.map_values(|s: String| s@);
        if imports[i].kind == ImportKind::ModDecl {
            out.push(imports[i].specifier.clone());
            assert(out@.map_values(|s: String| s@) =~= before.push(imports@[i as int].specifier@));
        }
        i += 1;
    }
    assert(imports@.take(i as int) =~= imports@);
    out
}

/// The files (by path) that declare modules with `mod`, with the modules
/// each declares, in file order; `paths[i]` is the path of `parsed[i]`.
pub fn mod_decls(paths: &Vec<String>, parsed: &Vec<ParsedFile>) -> (r: Vec<(String, Vec<String>)>)
    requires
        paths@.len() == parsed@.len(),
    ensures
        r@.map_values(|e: (String, Vec<String>)| (e.0@, e.1@.map_values(|s: String| s@))) == mod_decls_spec(paths@, parsed@),
{
    let mut out: Vec<(String, Vec<String>)> = Vec::new();
    let mut i: usize = 0;
    while i < parsed.len()
        invariant
            i <= parsed@.len(),
            paths@.len() == parsed@.len(),
            out@.map_values(|e: (String, Vec<String>)| (e.0@, e.1@.map_values(|s: String| s@))) == mod_decls_spec(paths@, parsed@.take(i as int)),
        decreases parsed@.len() - i,
    {
        assert(parsed@.take(i + 1).drop_last() =~= parsed@.take(i as int));
        let ghost before = out@.map_values(|e: (String, Vec<String>)| (e.0@, e.1@.map_values(|s: String| s@)));
        let d = declared_of(&parsed[i].imports);
        if d.len() > 0 {
            out.push((paths[i].clone(), d));
            assert(out@.map_values(|e: (String, Vec<String>)| (e.0@, e.1@.map_values(|s: String| s@)))
                =~= before.push((paths@[i as int]@, declared_mods(parsed@[i as int].imports@))));
        }
        i += 1;
    }
    assert(parsed@.take(i as int) =~= parsed@);
    out
}

/// Whether a language's imports go through the JavaScript resolver.
pub open spec fn js_family(l: Language) -> bool {
    l == Language::TypeScript || l == Language::Tsx || l == Language::JavaScript || l == Language::Jsx
}

/// The specifiers of every import in the JavaScript-family files, file by
/// file, in order; `languages[i]` is the language of `parsed[i]`.
pub open spec fn js_specifiers_spec(languages: Seq<Language>, parsed: Seq<ParsedFile>) -> Seq<Seq<char>>
    decreases parsed.len(),
{
    if parsed.len() == 0 || languages.len() < parsed.len() {
        Seq::empty()
    } else {
        let p = js_specifiers_spec(languages, parsed.drop_last());
        if js_family(languages[parsed.len() - 1]) {
            p + parsed.last().imports@.map_values(|im: RawImport| im.specifier@)
        } else {
            p
        }
    }
}

/// The specifiers imported by the JavaScript-family files, in file order.
pub fn js_specifiers(languages: &Vec<Language>, parsed: &Vec<ParsedFile>) -> (r: Vec<String>)
    requires
        languages@.len() == parsed@.len(),
    ensures
        r@.map_values(|s: String| s@) == js_specifiers_spec(languages@, parsed@),
{
    let mut out: Vec<String> = Vec::new();
    let mut i: usize = 0;
    while i < parsed.len()
        invariant
            i <= parsed@.len(),
            languages@.len() == parsed@.len(),
            out@.map_values(|s: String| s@) == js_specifiers_spec(languages@, parsed@.take(i as int)),
        decreases parsed@.len() - i,
    {
        assert(parsed@.take(i + 1).drop_last() =~= parsed@.take(i as int));
        let l = languages[i];
        if l == Language::TypeScript || l == Language::Tsx || l == Language::JavaScript || l == Language::Jsx {
            let imports = &parsed[i].imports;
            let ghost base = out@.map_values(|s: String| s@);
            let mut k: usize = 0;
            while k < imports.len()
                invariant
                    k <= imports@.len(),
                    out@.map_values(|s: String| s@) == base + imports@.take(k as int).map_values(|im: RawImport| im.specifier@),
                decreases imports@.len() - k,
            {
                let ghost prev = out@.map_values(|s: String| s@);
                out.push(imports[k].specifier.clone());
                assert(out@.map_values(|s: String| s@) =~= prev.push(imports@[k as int].specifier@));
                assert(imports@.take(k + 1).map_values(|im: RawImport| im.specifier@)
                    =~= imports@.take(k as int).map_values(|im: RawImport| im.specifier@).push(imports@[k as int].specifier@));
                k += 1;
            }
            assert(imports@.take(k as int) =~= imports@);
        }
        i += 1;
    }
    assert(parsed@.take(i as int) =~= parsed@);
    out
}

} // verus!
