//! The decisions of a pass over the language servers: which imports to ask
//! about, what an answer means, and how the answers change the graph. The
//! caller talks to the servers; each step here is a function of what it
//! hands over.
use vstd::prelude::*;
use std::collections::HashMap;
use vstd::utf8::encode_utf8;
use crate::analyse::{dedup, edge_before, sorted_edges};
use crate::lsp::{is_failure, located, locate, source_lines, worth_asking, LspMode};
use crate::model::{Edge, EdgeKind, FileId, FileNode, Graph, Language, LspDisagreement, LspRepair, UnresolvedImport};
use crate::order::{count_not_before, is_before, stable_sorted, str_before};
use crate::parse::{ParsedFile, RawImport};
use crate::text::{owned, str_eq};

verus! {

/// An import to ask a server about: where it is, and the UTF-16 column
/// inside its specifier.
#[derive(Debug, Clone, PartialEq, Eq)]
pub struct Site {
    pub from: FileId,
    pub specifier: String,
    pub line: u32,
    pub character: u32,
}

/// A site as plain values.
pub open spec fn site_view(s: Site) -> (FileId, Seq<char>, u32, u32) {
    (s.from, s.specifier@, s.line, s.character)
}

/// The heuristics could not resolve this import, for a reason a server might
/// fix.
pub open spec fn failed_at(unresolved: Seq<UnresolvedImport>, from: FileId, line: u32, spec: Seq<char>) -> bool {
    exists|k: int| 0 <= k < unresolved.len() && worth_asking((#[trigger] unresolved[k]).reason)
        && unresolved[k].from == from && unresolved[k].line == line && unresolved[k].specifier@ == spec
}

/// Whether an import is asked about: never when servers are off, when its
/// resolution failed in repair mode, always in verify mode.
pub open spec fn wanted(mode: LspMode, unresolved: Seq<UnresolvedImport>, from: FileId, line: u32, spec: Seq<char>) -> bool {
    match mode {
        LspMode::Off => false,
        LspMode::Repair => failed_at(unresolved, from, line, spec),
        LspMode::Verify => true,
    }
}

/// The source of a file, empty when none was read.
pub open spec fn source_of(sources: Map<u32, String>, id: u32) -> Seq<char> {
    if sources.contains_key(id) { sources[id]@ } else { Seq::empty() }
}

/// The sites of one file's imports, and how many wanted imports could not
/// be located on their line.
pub open spec fn import_sites(from: FileId, imports: Seq<RawImport>, source: Seq<char>, mode: LspMode, unresolved: Seq<UnresolvedImport>) -> (Seq<(FileId, Seq<char>, u32, u32)>, nat)
    decreases imports.len(),
{
    if imports.len() == 0 {
        (Seq::empty(), 0)
    } else {
        let p = import_sites(from, imports.drop_last(), source, mode, unresolved);
        let im = imports.last();
        if !wanted(mode, unresolved, from, im.line, im.specifier@) {
            p
        } else {
            match located(source, im.line, im.specifier@) {
                Some(c) => (p.0.push((from, im.specifier@, im.line, c)), p.1),
                None => (p.0, p.1 + 1),
            }
        }
    }
}

/// The sites of every file in a handled language, in file order, and how
/// many wanted imports could not be located.
pub open spec fn plan_sites(files: Seq<FileNode>, parsed: Map<u32, ParsedFile>, sources: Map<u32, String>, handled: Seq<Language>, mode: LspMode, unresolved: Seq<UnresolvedImport>) -> (Seq<(FileId, Seq<char>, u32, u32)>, nat)
    decreases files.len(),
{
    if files.len() == 0 {
        (Seq::empty(), 0)
    } else {
        let p = plan_sites(files.drop_last(), parsed, sources, handled, mode, unresolved);
        let f = files.last();
        if !handled.contains(f.language) || !parsed.contains_key(f.id.0) {
            p
        } else {
            let q = import_sites(f.id, parsed[f.id.0].imports@, source_of(sources, f.id.0), mode, unresolved);
            (p.0 + q.0, p.1 + q.1)
        }
    }
}

/// Every line of a source fits a `u32` column count.
pub open spec fn lines_fit(source: Seq<char>) -> bool {
    forall|k: int| 0 <= k < source_lines(source).len() ==> #[trigger] encode_utf8(source_lines(source)[k]).len() <= u32::MAX
}

fn language_in(handled: &[Language], l: Language) -> (r: bool)
    ensures
        r == handled@.contains(l),
{
    let mut i: usize = 0;
    while i < handled.len()
        invariant
            i <= handled@.len(),
            forall|k: int| 0 <= k < i ==> handled@[k] != l,
        decreases handled@.len() - i,
    {
        if handled[i] == l {
            assert(handled@[i as int] == l);
            return true;
        }
        i += 1;
    }
    false
}

fn has_failed(unresolved: &Vec<UnresolvedImport>, from: FileId, line: u32, spec: &str) -> (r: bool)
    ensures
        r == failed_at(unresolved@, from, line, spec@),
{
    let mut i: usize = 0;
    while i < unresolved.len()
        invariant
            i <= unresolved@.len(),
            forall|k: int| 0 <= k < i ==> !(worth_asking((#[trigger] unresolved@[k]).reason)
                && unresolved@[k].from == from && unresolved@[k].line == line && unresolved@[k].specifier@ == spec@),
        decreases unresolved@.len() - i,
    {
        let u = &unresolved[i];
        if is_failure(&u.reason) && u.from.0 == from.0 && u.line == line && str_eq(u.specifier.as_str(), spec) {
            return true;
        }
        i += 1;
    }
    false
}

/// The imports to ask about, in file order, and how many wanted imports
/// (saturating at `u64::MAX`) could not be found on their line: for each
/// file in a handled language that was parsed, each import the mode wants,
/// located in the file's source.
pub fn plan(
    graph: &Graph,
    parsed: &HashMap<u32, ParsedFile>,
    sources: &HashMap<u32, String>,
    handled: &[Language],
    mode: LspMode,
) -> (r: (Vec<Site>, u64))
    requires
        forall|id: u32| #[trigger] sources@.contains_key(id) ==> lines_fit(sources@[id]@),
    ensures
        r.0@.map_values(|s: Site| site_view(s)) == plan_sites(graph.files@, parsed@, sources@, handled@, mode, graph.unresolved@).0,
        r.1 as nat == if plan_sites(graph.files@, parsed@, sources@, handled@, mode, graph.unresolved@).1 > u64::MAX {
            u64::MAX as nat
        } else {
            plan_sites(graph.files@, parsed@, sources@, handled@, mode, graph.unresolved@).1
        },
{
    broadcast use vstd::std_specs::hash::group_hash_axioms;
    let ghost files = graph.files@;
    let mut sites: Vec<Site> = Vec::new();
    let mut missed: u64 = 0;
    let ghost mut total: nat = 0;
    let mut i: usize = 0;
    assert(files.take(0) =~= Seq::<FileNode>::empty());
    assert(sites@.map_values(|s: Site| site_view(s)) =~= Seq::<(FileId, Seq<char>, u32, u32)>::empty());
    while i < graph.files.len()
        invariant
            i <= files.len(),
            files == graph.files@,
            forall|id: u32| #[trigger] sources@.contains_key(id) ==> lines_fit(sources@[id]@),
            sites@.map_values(|s: Site| site_view(s)) == plan_sites(files.take(i as int), parsed@, sources@, handled@, mode, graph.unresolved@).0,
            total == plan_sites(files.take(i as int), parsed@, sources@, handled@, mode, graph.unresolved@).1,
            missed as nat == if total > u64::MAX { u64::MAX as nat } else { total },
        decreases files.len() - i,
    {
        assert(files.take(i + 1).drop_last() =~= files.take(i as int));
        assert(files.take(i + 1).last() == files[i as int]);
        let f = &graph.files[i];
        if language_in(handled, f.language) {
            match parsed.get(&f.id.0) {
                None => {},
                Some(p) => {
                    let empty = String::new();
                    let source: &String = match sources.get(&f.id.0) {
                        Some(s) => s,
                        None => &empty,
                    };
                    assert(source@ == source_of(sources@, f.id.0));
                    assert(lines_fit(source@)) by {
                        if !sources@.contains_key(f.id.0) {
                            assert(source@ =~= Seq::<char>::empty());
                            assert(crate::text::split(source@, '\n') =~= seq![Seq::<char>::empty()]);
                            assert(source_lines(source@).len() == 0);
                        }
                    }
                    let imports = &p.imports;
                    let ghost base = sites@.map_values(|s: Site| site_view(s));
                    let ghost base_total = total;
                    let mut k: usize = 0;
                    assert(imports@.take(0) =~= Seq::<RawImport>::empty());
                    assert(base + Seq::<(FileId, Seq<char>, u32, u32)>::empty() =~= base);
                    while k < imports.len()
                        invariant
                            k <= imports@.len(),
                            lines_fit(source@),
                            sites@.map_values(|s: Site| site_view(s))
                                == base + import_sites(f.id, imports@.take(k as int), source@, mode, graph.unresolved@).0,
                            total == base_total + import_sites(f.id, imports@.take(k as int), source@, mode, graph.unresolved@).1,
                            missed as nat == if total > u64::MAX { u64::MAX as nat } else { total },
                        decreases imports@.len() - k,
                    {
                        assert(imports@.take(k + 1).drop_last() =~= imports@.take(k as int));
                        assert(imports@.take(k + 1).last() == imports@[k as int]);
                        let im = &imports[k];
                        let want = match mode {
                            LspMode::Off => false,
                            LspMode::Repair => has_failed(&graph.unresolved, f.id, im.line, im.specifier.as_str()),
                            LspMode::Verify => true,
                        };
                        if want {
                            match locate(source.as_str(), im.line, im.specifier.as_str()) {
                                Some(c) => {
                                    let ghost before = sites@.map_values(|s: Site| site_view(s));
                                    let s = Site { from: f.id, specifier: owned(im.specifier.as_str()), line: im.line, character: c };
                                    sites.push(s);
                                    assert(sites@.map_values(|s: Site| site_view(s)) =~= before.push(site_view(s)));
                                },
                                None => {
                                    missed = missed.saturating_add(1);
                                    proof { total = total + 1; }
                                },
                            }
                        }
                        k += 1;
                    }
                    assert(imports@.take(k as int) =~= imports@);
                },
            }
        }
        i += 1;
    }
    assert(files.take(i as int) =~= files);
    (sites, missed)
}

/// The id of the last file with path `path`.
pub open spec fn file_at(files: Seq<FileNode>, path: Seq<char>) -> Option<FileId>
    decreases files.len(),
{
    if files.len() == 0 {
        None
    } else if files.last().path@ == path {
        Some(files.last().id)
    } else {
        file_at(files.drop_last(), path)
    }
}

/// The first of a server's answers (repository-relative paths) that is a
/// file of the graph.
pub open spec fn first_known(files: Seq<FileNode>, rels: Seq<Seq<char>>) -> Option<FileId>
    decreases rels.len(),
{
    if rels.len() == 0 {
        None
    } else {
        match file_at(files, rels[0]) {
            Some(id) => Some(id),
            None => first_known(files, rels.drop_first()),
        }
    }
}

fn find_file(files: &Vec<FileNode>, path: &str) -> (r: Option<FileId>)
    ensures
        r == file_at(files@, path@),
{
    let mut k = files.len();
    assert(files@.take(k as int) =~= files@);
    while k > 0
        invariant
            k <= files@.len(),
            file_at(files@, path@) == file_at(files@.take(k as int), path@),
        decreases k,
    {
        assert(files@.take(k as int).drop_last() =~= files@.take(k - 1));
        if str_eq(files[k - 1].path.as_str(), path) {
            return Some(files[k - 1].id);
        }
        k -= 1;
    }
    None
}

/// The file a server's answer points to: the first of its locations,
/// written relative to the repository root, that is a file of the graph.
pub fn target_of(graph: &Graph, rels: &[String]) -> (r: Option<FileId>)
    ensures
        r == first_known(graph.files@, rels@.map_values(|s: String| s@)),
{
    let ghost rv = rels@.map_values(|s: String| s@);
    let mut i: usize = 0;
    assert(rv.skip(0) =~= rv);
    while i < rels.len()
        invariant
            i <= rv.len(),
            rv == rels@.map_values(|s: String| s@),
            first_known(graph.files@, rv) == first_known(graph.files@, rv.skip(i as int)),
        decreases rv.len() - i,
    {
        assert(rv.skip(i as int)[0] == rels@[i as int]@);
        assert(rv.skip(i as int).drop_first() =~= rv.skip(i + 1));
        match find_file(&graph.files, rels[i].as_str()) {
            Some(id) => {
                return Some(id);
            },
            None => {},
        }
        i += 1;
    }
    assert(rv.skip(i as int) =~= Seq::<Seq<char>>::empty());
    None
}

/// What an answer came to.
#[derive(Debug, Clone, Copy, PartialEq, Eq, Structural)]
pub enum Verdict {
    /// The import points at the file it is written in.
    SelfReference,
    /// The graph already has an edge between the two files.
    AlreadyKnown,
    /// An earlier answer already linked this import to this file.
    AlreadyAnswered,
    /// The heuristics had failed; the answer repairs the import.
    Repaired,
    /// The heuristics resolved the import elsewhere; the answer disagrees.
    Disagreed,
}

/// What the answers of a pass have added so far: repairs, disagreements,
/// the new edges, and the (from, to, specifier) already linked.
pub struct Answers {
    pub repaired: Vec<LspRepair>,
    pub disagreements: Vec<LspDisagreement>,
    pub new_edges: Vec<Edge>,
    pub resolved: Vec<(u32, u32, String)>,
}

impl Answers {
    /// Nothing answered yet.
    pub fn new() -> (r: Answers)
        ensures
            r.repaired@.len() == 0,
            r.disagreements@.len() == 0,
            r.new_edges@.len() == 0,
            r.resolved@.len() == 0,
    {
        Answers { repaired: Vec::new(), disagreements: Vec::new(), new_edges: Vec::new(), resolved: Vec::new() }
    }
}

/// A repair as plain values.
pub open spec fn repair_view(r: LspRepair) -> (FileId, Seq<char>, u32, FileId, Seq<char>) {
    (r.from, r.specifier@, r.line, r.to, r.server@)
}

/// A disagreement as plain values.
pub open spec fn disagreement_view(d: LspDisagreement) -> (FileId, Seq<char>, u32, FileId, Seq<char>) {
    (d.from, d.specifier@, d.line, d.lsp_target, d.server@)
}

/// The links already made, as plain values.
pub open spec fn resolved_keys(v: Seq<(u32, u32, String)>) -> Seq<(u32, u32, Seq<char>)> {
    v.map_values(|k: (u32, u32, String)| (k.0, k.1, k.2@))
}

/// The graph has a (non-co-change) edge from `a` to `b`.
pub open spec fn known_edge(edges: Seq<Edge>, a: FileId, b: FileId) -> bool {
    exists|k: int| 0 <= k < edges.len() && (#[trigger] edges[k]).kind != EdgeKind::CoChange && edges[k].from == a && edges[k].to == b
}

/// Some import of the graph that did not resolve (for any reason) sits
/// where the site does.
pub open spec fn unresolved_at(unresolved: Seq<UnresolvedImport>, from: FileId, line: u32, spec: Seq<char>) -> bool {
    exists|k: int| 0 <= k < unresolved.len() && (#[trigger] unresolved[k]).from == from && unresolved[k].line == line
        && unresolved[k].specifier@ == spec
}

/// What an answer pointing at `target` comes to.
pub open spec fn verdict_of(graph: Graph, resolved: Seq<(u32, u32, Seq<char>)>, site: (FileId, Seq<char>, u32, u32), target: FileId) -> Verdict {
    if target == site.0 {
        Verdict::SelfReference
    } else if known_edge(graph.edges@, site.0, target) {
        Verdict::AlreadyKnown
    } else if resolved.contains((site.0.0, target.0, site.1)) {
        Verdict::AlreadyAnswered
    } else if unresolved_at(graph.unresolved@, site.0, site.2, site.1) {
        Verdict::Repaired
    } else {
        Verdict::Disagreed
    }
}

fn edge_known(edges: &Vec<Edge>, a: FileId, b: FileId) -> (r: bool)
    ensures
        r == known_edge(edges@, a, b),
{
    let mut i: usize = 0;
    while i < edges.len()
        invariant
            i <= edges@.len(),
            forall|k: int| 0 <= k < i ==> !((#[trigger] edges@[k]).kind != EdgeKind::CoChange && edges@[k].from == a && edges@[k].to == b),
        decreases edges@.len() - i,
    {
        let e = edges[i];
        let co = match e.kind {
            EdgeKind::CoChange => true,
            _ => false,
        };
        if !co && e.from.0 == a.0 && e.to.0 == b.0 {
            return true;
        }
        i += 1;
    }
    false
}

fn already_linked(resolved: &Vec<(u32, u32, String)>, a: u32, b: u32, spec: &str) -> (r: bool)
    ensures
        r == resolved_keys(resolved@).contains((a, b, spec@)),
{
    let ghost keys = resolved_keys(resolved@);
    let mut i: usize = 0;
    while i < resolved.len()
        invariant
            i <= resolved@.len(),
            keys == resolved_keys(resolved@),
            forall|k: int| 0 <= k < i ==> keys[k] != (a, b, spec@),
        decreases resolved@.len() - i,
    {
        if resolved[i].0 == a && resolved[i].1 == b && str_eq(resolved[i].2.as_str(), spec) {
            assert(keys[i as int] == (a, b, spec@));
            return true;
        }
        i += 1;
    }
    false
}

fn has_unresolved(unresolved: &Vec<UnresolvedImport>, from: FileId, line: u32, spec: &str) -> (r: bool)
    ensures
        r == unresolved_at(unresolved@, from, line, spec@),
{
    let mut i: usize = 0;
    while i < unresolved.len()
        invariant
            i <= unresolved@.len(),
            forall|k: int| 0 <= k < i ==> !((#[trigger] unresolved@[k]).from == from && unresolved@[k].line == line
                && unresolved@[k].specifier@ == spec@),
        decreases unresolved@.len() - i,
    {
        let u = &unresolved[i];
        if u.from.0 == from.0 && u.line == line && str_eq(u.specifier.as_str(), spec) {
            return true;
        }
        i += 1;
    }
    false
}

/// Records what a server answered for a site. An answer that points at the
/// importing file itself, at a file the graph already links it to, or at a
/// file an earlier answer already linked this import to changes nothing.
/// Otherwise the import is linked, an edge is added, and the answer is a
/// repair where the heuristics had left the import unresolved and a
/// disagreement where they had resolved it.
pub fn record_answer(answers: &mut Answers, graph: &Graph, site: &Site, target: FileId, server: &str) -> (v: Verdict)
    ensures
        v == verdict_of(*graph, resolved_keys(old(answers).resolved@), site_view(*site), target),
        (v == Verdict::Repaired || v == Verdict::Disagreed) ==> {
            &&& resolved_keys(final(answers).resolved@) == resolved_keys(old(answers).resolved@).push((site.from.0, target.0, site.specifier@))
            &&& final(answers).new_edges@ == old(answers).new_edges@.push(Edge { from: site.from, to: target, kind: EdgeKind::Import })
        },
        v == Verdict::Repaired ==> {
            &&& final(answers).repaired@.map_values(|r: LspRepair| repair_view(r))
                == old(answers).repaired@.map_values(|r: LspRepair| repair_view(r)).push((site.from, site.specifier@, site.line, target, server@))
            &&& final(answers).disagreements@ == old(answers).disagreements@
        },
        v == Verdict::Disagreed ==> {
            &&& final(answers).disagreements@.map_values(|d: LspDisagreement| disagreement_view(d))
                == old(answers).disagreements@.map_values(|d: LspDisagreement| disagreement_view(d)).push((site.from, site.specifier@, site.line, target, server@))
            &&& final(answers).repaired@ == old(answers).repaired@
        },
        !(v == Verdict::Repaired || v == Verdict::Disagreed) ==> {
            &&& final(answers).repaired@ == old(answers).repaired@
            &&& final(answers).disagreements@ == old(answers).disagreements@
            &&& final(answers).new_edges@ == old(answers).new_edges@
            &&& final(answers).resolved@ == old(answers).resolved@
        },
{
    if target.0 == site.from.0 {
        return Verdict::SelfReference;
    }
    if edge_known(&graph.edges, site.from, target) {
        return Verdict::AlreadyKnown;
    }
    if already_linked(&answers.resolved, site.from.0, target.0, site.specifier.as_str()) {
        return Verdict::AlreadyAnswered;
    }
    let ghost keys = resolved_keys(answers.resolved@);
    answers.resolved.push((site.from.0, target.0, owned(site.specifier.as_str())));
    assert(resolved_keys(answers.resolved@) =~= keys.push((site.from.0, target.0, site.specifier@)));
    let v = if has_unresolved(&graph.unresolved, site.from, site.line, site.specifier.as_str()) {
        let ghost before = answers.repaired@.map_values(|r: LspRepair| repair_view(r));
        let r = LspRepair { from: site.from, specifier: owned(site.specifier.as_str()), line: site.line, to: target, server: owned(server) };
        answers.repaired.push(r);
        assert(answers.repaired@.map_values(|r: LspRepair| repair_view(r)) =~= before.push(repair_view(r)));
        Verdict::Repaired
    } else {
        let ghost before = answers.disagreements@.map_values(|d: LspDisagreement| disagreement_view(d));
        let d = LspDisagreement { from: site.from, specifier: owned(site.specifier.as_str()), line: site.line, lsp_target: target, server: owned(server) };
        answers.disagreements.push(d);
        assert(answers.disagreements@.map_values(|d: LspDisagreement| disagreement_view(d)) =~= before.push(disagreement_view(d)));
        Verdict::Disagreed
    };
    answers.new_edges.push(Edge { from: site.from, to: target, kind: EdgeKind::Import });
    v
}

/// A repair fixed the import `u`: same file, line and specifier.
pub open spec fn fixed_by(repaired: Seq<LspRepair>, u: UnresolvedImport) -> bool {
    exists|k: int| 0 <= k < repaired.len() && (#[trigger] repaired[k]).from == u.from && repaired[k].line == u.line
        && repaired[k].specifier@ == u.specifier@
}

/// The unresolved imports that no repair fixed, in order.
pub open spec fn still_unresolved(us: Seq<UnresolvedImport>, repaired: Seq<LspRepair>) -> Seq<UnresolvedImport>
    decreases us.len(),
{
    if us.len() == 0 {
        Seq::empty()
    } else {
        let p = still_unresolved(us.drop_last(), repaired);
        if fixed_by(repaired, us.last()) { p } else { p.push(us.last()) }
    }
}

/// Findings about an import are ordered by file, then line, then specifier.
pub open spec fn finding_before(a: (FileId, Seq<char>, u32, FileId, Seq<char>), b: (FileId, Seq<char>, u32, FileId, Seq<char>)) -> bool {
    a.0.0 < b.0.0 || (a.0.0 == b.0.0 && (a.2 < b.2 || (a.2 == b.2 && str_before(a.1, b.1, false))))
}

/// The order findings about imports are sorted in.
pub open spec fn finding_order() -> spec_fn((FileId, Seq<char>, u32, FileId, Seq<char>), (FileId, Seq<char>, u32, FileId, Seq<char>)) -> bool {
    |a: (FileId, Seq<char>, u32, FileId, Seq<char>), b: (FileId, Seq<char>, u32, FileId, Seq<char>)| finding_before(a, b)
}

fn finding_is_before(af: FileId, aspec: &str, aline: u32, bf: FileId, bspec: &str, bline: u32) -> (r: bool)
    ensures
        forall|at: FileId, asv: Seq<char>, bt: FileId, bsv: Seq<char>|
            r == #[trigger] finding_before((af, aspec@, aline, at, asv), (bf, bspec@, bline, bt, bsv)),
{
    af.0 < bf.0 || (af.0 == bf.0 && (aline < bline || (aline == bline && is_before(aspec, bspec, false))))
}

fn sort_repairs(v: Vec<LspRepair>) -> (r: Vec<LspRepair>)
    ensures
        r@.map_values(|x: LspRepair| repair_view(x)) == stable_sorted(v@.map_values(|x: LspRepair| repair_view(x)), finding_order()),
{
    let ghost raw = v@.map_values(|x: LspRepair| repair_view(x));
    let ghost before = finding_order();
    let total = v.len();
    let mut rest = v;
    let mut sorted: Vec<LspRepair> = Vec::new();
    let mut taken: usize = 0;
    while rest.len() > 0
        invariant
            total == raw.len(),
            taken <= raw.len(),
            rest@.map_values(|x: LspRepair| repair_view(x)) == raw.skip(taken as int),
            before == finding_order(),
            sorted@.map_values(|x: LspRepair| repair_view(x)) == stable_sorted(raw.take(taken as int), before),
        decreases rest@.len(),
    {
        let ghost rv = rest@.map_values(|x: LspRepair| repair_view(x));
        let ghost old_rest = rest@;
        let x = rest.remove(0);
        assert(rest@ =~= old_rest.skip(1));
        assert(rest@.map_values(|x: LspRepair| repair_view(x)) =~= rv.skip(1));
        assert(rv[0] == repair_view(x));
        assert(raw.skip(taken as int)[0] == raw[taken as int]);
        assert(raw.take(taken + 1).drop_last() == raw.take(taken as int));
        assert(raw.take(taken + 1).last() == repair_view(x));
        let ghost s = sorted@.map_values(|x: LspRepair| repair_view(x));
        let mut count: usize = 0;
        let mut k: usize = 0;
        while k < sorted.len()
            invariant
                k <= sorted@.len(),
                s == sorted@.map_values(|x: LspRepair| repair_view(x)),
                before == finding_order(),
                count == count_not_before(s.take(k as int), repair_view(x), before),
                count <= k,
            decreases sorted@.len() - k,
        {
            assert(s.take(k + 1).drop_last() == s.take(k as int));
            let y = &sorted[k];
            if !finding_is_before(x.from, x.specifier.as_str(), x.line, y.from, y.specifier.as_str(), y.line) {
                count += 1;
            }
            k += 1;
        }
        assert(s.take(k as int) == s);
        let ghost xv = repair_view(x);
        sorted.insert(count, x);
        assert(sorted@.map_values(|x: LspRepair| repair_view(x)) =~= s.insert(count as int, xv));
        taken += 1;
        assert(rest@.map_values(|x: LspRepair| repair_view(x)) =~= raw.skip(taken as int));
    }
    assert(raw.take(taken as int) =~= raw);
    sorted
}

fn sort_disagreements(v: Vec<LspDisagreement>) -> (r: Vec<LspDisagreement>)
    ensures
        r@.map_values(|x: LspDisagreement| disagreement_view(x)) == stable_sorted(v@.map_values(|x: LspDisagreement| disagreement_view(x)), finding_order()),
{
    let ghost raw = v@.map_values(|x: LspDisagreement| disagreement_view(x));
    let ghost before = finding_order();
    let total = v.len();
    let mut rest = v;
    let mut sorted: Vec<LspDisagreement> = Vec::new();
    let mut taken: usize = 0;
    while rest.len() > 0
        invariant
            total == raw.len(),
            taken <= raw.len(),
            rest@.map_values(|x: LspDisagreement| disagreement_view(x)) == raw.skip(taken as int),
            before == finding_order(),
            sorted@.map_values(|x: LspDisagreement| disagreement_view(x)) == stable_sorted(raw.take(taken as int), before),
        decreases rest@.len(),
    {
        let ghost rv = rest@.map_values(|x: LspDisagreement| disagreement_view(x));
        let ghost old_rest = rest@;
        let x = rest.remove(0);
        assert(rest@ =~= old_rest.skip(1));
        assert(rest@.map_values(|x: LspDisagreement| disagreement_view(x)) =~= rv.skip(1));
        assert(rv[0] == disagreement_view(x));
        assert(raw.skip(taken as int)[0] == raw[taken as int]);
        assert(raw.take(taken + 1).drop_last() == raw.take(taken as int));
        assert(raw.take(taken + 1).last() == disagreement_view(x));
        let ghost s = sorted@.map_values(|x: LspDisagreement| disagreement_view(x));
        let mut count: usize = 0;
        let mut k: usize = 0;
        while k < sorted.len()
            invariant
                k <= sorted@.len(),
                s == sorted@.map_values(|x: LspDisagreement| disagreement_view(x)),
                before == finding_order(),
                count == count_not_before(s.take(k as int), disagreement_view(x), before),
                count <= k,
            decreases sorted@.len() - k,
        {
            assert(s.take(k + 1).drop_last() == s.take(k as int));
            let y = &sorted[k];
            if !finding_is_before(x.from, x.specifier.as_str(), x.line, y.from, y.specifier.as_str(), y.line) {
                count += 1;
            }
            k += 1;
        }
        assert(s.take(k as int) == s);
        let ghost xv = disagreement_view(x);
        sorted.insert(count, x);
        assert(sorted@.map_values(|x: LspDisagreement| disagreement_view(x)) =~= s.insert(count as int, xv));
        taken += 1;
        assert(rest@.map_values(|x: LspDisagreement| disagreement_view(x)) =~= raw.skip(taken as int));
    }
    assert(raw.take(taken as int) =~= raw);
    sorted
}

fn is_fixed(repaired: &Vec<LspRepair>, u: &UnresolvedImport) -> (r: bool)
    ensures
        r == fixed_by(repaired@, *u),
{
    let mut i: usize = 0;
    while i < repaired.len()
        invariant
            i <= repaired@.len(),
            forall|k: int| 0 <= k < i ==> !((#[trigger] repaired@[k]).from == u.from && repaired@[k].line == u.line
                && repaired@[k].specifier@ == u.specifier@),
        decreases repaired@.len() - i,
    {
        let r = &repaired[i];
        if r.from.0 == u.from.0 && r.line == u.line && str_eq(r.specifier.as_str(), u.specifier.as_str()) {
            return true;
        }
        i += 1;
    }
    false
}

/// Applies the answers of a pass to the graph: the imports a repair fixed
/// are no longer unresolved, the new edges join the graph's (sorted by
/// source, target and kind, each once), and the repairs and disagreements,
/// sorted by file, line and specifier, are recorded. Nothing else changes.
pub fn settle(graph: &mut Graph, answers: Answers)
    ensures
        final(graph).unresolved@ == still_unresolved(old(graph).unresolved@, answers.repaired@),
        final(graph).edges@ == dedup(stable_sorted(old(graph).edges@ + answers.new_edges@, |a: Edge, b: Edge| edge_before(a, b))),
        final(graph).lsp_repairs@.map_values(|x: LspRepair| repair_view(x))
            == stable_sorted(answers.repaired@.map_values(|x: LspRepair| repair_view(x)), finding_order()),
        final(graph).lsp_disagreements@.map_values(|x: LspDisagreement| disagreement_view(x))
            == stable_sorted(answers.disagreements@.map_values(|x: LspDisagreement| disagreement_view(x)), finding_order()),
        final(graph).root == old(graph).root,
        final(graph).files == old(graph).files,
        final(graph).modules == old(graph).modules,
        final(graph).case_mismatches == old(graph).case_mismatches,
        final(graph).alias_audit == old(graph).alias_audit,
        final(graph).edge_sites == old(graph).edge_sites,
{
    let Answers { repaired, disagreements, new_edges, resolved: _ } = answers;
    let mut pending: Vec<UnresolvedImport> = Vec::new();
    std::mem::swap(&mut pending, &mut graph.unresolved);
    let ghost us = pending@;
    let total = pending.len();
    let mut kept: Vec<UnresolvedImport> = Vec::new();
    let mut taken: usize = 0;
    assert(us.take(0) =~= Seq::<UnresolvedImport>::empty());
    while pending.len() > 0
        invariant
            total == us.len(),
            taken <= us.len(),
            pending@ == us.skip(taken as int),
            kept@ == still_unresolved(us.take(taken as int), repaired@),
        decreases pending@.len(),
    {
        let ghost old_p = pending@;
        let u = pending.remove(0);
        assert(pending@ =~= old_p.skip(1));
        assert(us.skip(taken as int)[0] == us[taken as int]);
        assert(us.take(taken + 1).drop_last() =~= us.take(taken as int));
        assert(us.take(taken + 1).last() == u);
        if !is_fixed(&repaired, &u) {
            kept.push(u);
        }
        taken += 1;
        assert(pending@ =~= us.skip(taken as int));
    }
    assert(us.take(taken as int) =~= us);
    graph.unresolved = kept;

    let mut all: Vec<Edge> = Vec::new();
    std::mem::swap(&mut all, &mut graph.edges);
    let ghost old_edges = all@;
    let mut extra = new_edges;
    let ghost added = extra@;
    all.append(&mut extra);
    assert(all@ =~= old_edges + added);
    graph.edges = sorted_edges(all);

    graph.lsp_repairs = sort_repairs(repaired);
    graph.lsp_disagreements = sort_disagreements(disagreements);
}

/// The languages in the order of their names: `Go`, `JavaScript`, `Jsx`,
/// `Python`, `Rust`, `Tsx`, `TypeScript`.
pub open spec fn by_name() -> Seq<Language> {
    seq![Language::Go, Language::JavaScript, Language::Jsx, Language::Python, Language::Rust, Language::Tsx, Language::TypeScript]
}

/// Some file of the graph is in language `l`.
pub open spec fn has_language(files: Seq<FileNode>, l: Language) -> bool {
    exists|k: int| 0 <= k < files.len() && (#[trigger] files[k]).language == l
}

/// The languages of a graph's files, each once, in the order of their names.
pub open spec fn languages_present(files: Seq<FileNode>) -> Seq<Language> {
    by_name().filter(|l: Language| has_language(files, l))
}

fn language_present(files: &Vec<FileNode>, l: Language) -> (r: bool)
    ensures
        r == has_language(files@, l),
{
    let mut i: usize = 0;
    while i < files.len()
        invariant
            i <= files@.len(),
            forall|k: int| 0 <= k < i ==> (#[trigger] files@[k]).language != l,
        decreases files@.len() - i,
    {
        if files[i].language == l {
            return true;
        }
        i += 1;
    }
    false
}


/// Whether language servers are consulted at all: only when the mode is not
/// `Off` and at least one server was found.
pub fn servers_consulted(mode: LspMode, found: usize) -> (r: bool)
    ensures
        r == (mode != LspMode::Off && found > 0),
{
    mode != LspMode::Off && found > 0
}

/// The languages of the graph's files, each once, sorted by name.
pub fn languages_in(graph: &Graph) -> (r: Vec<Language>)
    ensures
        r@ == languages_present(graph.files@),
{
    let all = [Language::Go, Language::JavaScript, Language::Jsx, Language::Python, Language::Rust, Language::Tsx, Language::TypeScript];
    assert(all@ =~= by_name());
    let mut out: Vec<Language> = Vec::new();
    let mut i: usize = 0;
    assert(by_name().take(0).filter(|l: Language| has_language(graph.files@, l)) =~= Seq::<Language>::empty());
    while i < 7
        invariant
            i <= 7,
            all@ == by_name(),
            out@ == by_name().take(i as int).filter(|l: Language| has_language(graph.files@, l)),
        decreases 7 - i,
    {
        let l = all[i];
        assert(by_name().take(i + 1) =~= by_name().take(i as int).push(l));
        proof {
            by_name().take(i as int).lemma_filter_push(l, |l: Language| has_language(graph.files@, l));
        }
        if language_present(&graph.files, l) {
            out.push(l);
        }
        i += 1;
    }
    assert(by_name().take(7) =~= by_name());
    out
}

/// The languages of `languages` that a server handles, in order.
pub fn handled_by(server: &crate::lsp::servers::ServerSpec, languages: &Vec<Language>) -> (r: Vec<Language>)
    ensures
        r@ == languages@.filter(|l: Language| server.languages@.contains(l)),
{
    let mut out: Vec<Language> = Vec::new();
    let mut i: usize = 0;
    assert(languages@.take(0).filter(|l: Language| server.languages@.contains(l)) =~= Seq::<Language>::empty());
    while i < languages.len()
        invariant
            i <= languages@.len(),
            out@ == languages@.take(i as int).filter(|l: Language| server.languages@.contains(l)),
        decreases languages@.len() - i,
    {
        let l = languages[i];
        assert(languages@.take(i + 1) =~= languages@.take(i as int).push(l));
        proof {
            languages@.take(i as int).lemma_filter_push(l, |l: Language| server.languages@.contains(l));
        }
        if server.handles(l) {
            out.push(l);
        }
        i += 1;
    }
    assert(languages@.take(i as int) =~= languages@);
    out
}

} // verus!
