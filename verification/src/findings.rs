//! The vocabulary of findings: how serious one is, what kind it is, the
//! evidence shown with it, and which files can be entry points or dead code.
use vstd::prelude::*;
use crate::text::{chars_of, ends_with, has_char, is_prefix, is_suffix, last_index_of, last_piece, owned, rfind_char, str_eq, string_of};

verus! {

/// How serious a finding is, from least to most.
#[derive(Debug, Clone, Copy, PartialEq, Eq, Structural, PartialOrd, Ord, Hash)]
pub enum Severity {
    Info,
    Low,
    Medium,
    High,
    Critical,
}

/// The rank of a severity: `Info` is the lowest.
pub open spec fn severity_rank(s: Severity) -> int {
    match s {
        Severity::Info => 0,
        Severity::Low => 1,
        Severity::Medium => 2,
        Severity::High => 3,
        Severity::Critical => 4,
    }
}

/// Whether `a` is at least as serious as `b`.
pub fn at_least(a: Severity, b: Severity) -> (r: bool)
    ensures
        r == (severity_rank(a) >= severity_rank(b)),
{
    rank(a) >= rank(b)
}

fn rank(s: Severity) -> (r: u8)
    ensures
        r == severity_rank(s),
{
    match s {
        Severity::Info => 0,
        Severity::Low => 1,
        Severity::Medium => 2,
        Severity::High => 3,
        Severity::Critical => 4,
    }
}

/// The kinds of finding.
#[derive(Debug, Clone, Copy, PartialEq, Eq, Structural, Hash)]
pub enum FindingKind {
    Cycle,
    GodFile,
    Orphan,
    UnstableInterface,
    LayeringViolation,
    BusFactor,
    DistantCoupling,
    BarrelHub,
    CaseMismatch,
    LspDisagreement,
    PathAlias,
}

/// The heading a kind of finding is shown under.
pub open spec fn kind_label(k: FindingKind) -> Seq<char> {
    match k {
        FindingKind::Cycle => "Import cycle"@,
        FindingKind::GodFile => "God file"@,
        FindingKind::Orphan => "Orphan"@,
        FindingKind::UnstableInterface => "Unstable interface"@,
        FindingKind::LayeringViolation => "Layering violation"@,
        FindingKind::BusFactor => "Bus factor"@,
        FindingKind::DistantCoupling => "Distant coupling"@,
        FindingKind::BarrelHub => "Barrel hub"@,
        FindingKind::CaseMismatch => "Case mismatch"@,
        FindingKind::LspDisagreement => "Resolver disagreement"@,
        FindingKind::PathAlias => "Path alias"@,
    }
}

impl FindingKind {
    /// The heading this kind of finding is shown under.
    pub fn label(self) -> (r: &'static str)
        ensures
            r@ == kind_label(self),
    {
        match self {
            FindingKind::Cycle => "Import cycle",
            FindingKind::GodFile => "God file",
            FindingKind::Orphan => "Orphan",
            FindingKind::UnstableInterface => "Unstable interface",
            FindingKind::LayeringViolation => "Layering violation",
            FindingKind::BusFactor => "Bus factor",
            FindingKind::DistantCoupling => "Distant coupling",
            FindingKind::BarrelHub => "Barrel hub",
            FindingKind::CaseMismatch => "Case mismatch",
            FindingKind::LspDisagreement => "Resolver disagreement",
            FindingKind::PathAlias => "Path alias",
        }
    }
}

/// One labelled fact shown with a finding.
#[derive(Debug, Clone, PartialEq, Eq)]
pub struct Evidence {
    pub label: String,
    pub value: String,
}

impl Evidence {
    /// A labelled fact; the value is already written out as text.
    pub fn new(label: &str, value: &str) -> (r: Evidence)
        ensures
            r.label@ == label@,
            r.value@ == value@,
    {
        Evidence { label: owned(label), value: owned(value) }
    }
}

/// How serious a cycle is by how many files it ties together: six or more
/// is high, three or more medium, fewer low.
pub open spec fn cycle_severity_of(members: nat) -> Severity {
    if members >= 6 {
        Severity::High
    } else if members >= 3 {
        Severity::Medium
    } else {
        Severity::Low
    }
}

/// The severity of a cycle across `members` files.
pub fn cycle_severity(members: usize) -> (r: Severity)
    ensures
        r == cycle_severity_of(members as nat),
{
    if members >= 6 {
        Severity::High
    } else if members >= 3 {
        Severity::Medium
    } else {
        Severity::Low
    }
}

/// The severity a kind of finding always has, where it does not depend on
/// a score or a size: an orphan is low; a case mismatch, a layering
/// violation and a disagreement with a language server are high; a bus
/// factor and a distant coupling are medium.
pub open spec fn fixed_severity_of(kind: FindingKind) -> Option<Severity> {
    match kind {
        FindingKind::Orphan => Some(Severity::Low),
        FindingKind::CaseMismatch => Some(Severity::High),
        FindingKind::LayeringViolation => Some(Severity::High),
        FindingKind::LspDisagreement => Some(Severity::High),
        FindingKind::BusFactor => Some(Severity::Medium),
        FindingKind::DistantCoupling => Some(Severity::Medium),
        _ => None,
    }
}

/// The fixed severity of a kind of finding, if it has one.
pub fn fixed_severity(kind: FindingKind) -> (r: Option<Severity>)
    ensures
        r == fixed_severity_of(kind),
{
    match kind {
        FindingKind::Orphan => Some(Severity::Low),
        FindingKind::CaseMismatch => Some(Severity::High),
        FindingKind::LayeringViolation => Some(Severity::High),
        FindingKind::LspDisagreement => Some(Severity::High),
        FindingKind::BusFactor => Some(Severity::Medium),
        FindingKind::DistantCoupling => Some(Severity::Medium),
        _ => None,
    }
}

/// A path alias that points nowhere is high; one that works but is unused
/// is only information.
pub fn alias_severity(resolves: bool) -> (r: Severity)
    ensures
        r == if resolves { Severity::Info } else { Severity::High },
{
    if resolves { Severity::Info } else { Severity::High }
}

/// Whether a repository has enough files for ranking one against the rest
/// (as the god-file and unstable-interface detectors do) to mean anything:
/// five or more.
pub fn enough_files_to_rank(file_count: usize) -> (r: bool)
    ensures
        r == (file_count >= 5),
{
    file_count >= 5
}

/// Whether a file is long enough to be a god file: 200 lines or more.
pub fn long_enough_for_god_file(loc: u32) -> (r: bool)
    ensures
        r == (loc >= 200),
{
    loc >= 200
}

/// Limits on what the detectors report.
#[derive(Debug, Clone, Copy, PartialEq, Eq)]
pub struct FindingsOptions {
    pub max_per_kind: usize,
}

impl Default for FindingsOptions {
    fn default() -> (r: FindingsOptions)
        ensures
            r.max_per_kind == 100,
    {
        FindingsOptions { max_per_kind: 100 }
    }
}

/// The file name of a `/`-separated path.
pub open spec fn base_name(path: Seq<char>) -> Seq<char> {
    last_piece(path, '/')
}

/// An `index` file that is an entry point: one directly under a `src`
/// directory, or at the root; a barrel deeper down is not.
pub open spec fn root_index(path: Seq<char>) -> bool {
    let name = base_name(path);
    &&& (name == "index.ts"@ || name == "index.tsx"@ || name == "index.js"@ || name == "index.jsx"@)
    &&& match last_index_of(path, '/') {
        Some(i) => path.subrange(0, i) == "src"@ || is_suffix("/src"@, path.subrange(0, i)),
        None => true,
    }
}

fn tail_after(path: &[char], i: Option<usize>) -> (r: Vec<char>)
    requires
        match i {
            Some(k) => last_index_of(path@, '/') == Some(k as int),
            None => last_index_of(path@, '/') is None,
        },
    ensures
        r@ == last_piece(path@, '/'),
{
    proof { crate::text::lemma_last_index_of(path@, '/'); }
    match i {
        Some(k) => {
            let n = path.len();
            assert(k < n);
            vstd::slice::slice_to_vec(vstd::slice::slice_subrange(path, k + 1, n))
        },
        None => vstd::slice::slice_to_vec(path),
    }
}

/// Whether a path is an `index` file that starts an application.
pub fn is_root_index(path: &str) -> (r: bool)
    ensures
        r == root_index(path@),
{
    let p = chars_of(path);
    let slash = rfind_char(p.as_slice(), '/');
    let name = string_of(tail_after(p.as_slice(), slash).as_slice());
    let n = name.as_str();
    if !(str_eq(n, "index.ts") || str_eq(n, "index.tsx") || str_eq(n, "index.js") || str_eq(n, "index.jsx")) {
        return false;
    }
    match slash {
        Some(i) => {
            proof { crate::text::lemma_last_index_of(path@, '/'); }
            let dir = vstd::slice::slice_subrange(p.as_slice(), 0, i);
            let src = chars_of("src");
            let tail = chars_of("/src");
            crate::text::chars_eq(dir, src.as_slice()) || ends_with(dir, tail.as_slice())
        },
        None => true,
    }
}

/// Whether `needle` occurs in `s`.
pub open spec fn contains_text(s: Seq<char>, needle: Seq<char>) -> bool {
    exists|i: int| 0 <= i <= s.len() - needle.len() && #[trigger] s.subrange(i, i + needle.len()) == needle
}

pub(crate) fn contains_chars(s: &[char], needle: &[char]) -> (r: bool)
    ensures
        r == contains_text(s@, needle@),
{
    if needle.len() > s.len() {
        return false;
    }
    let n = s.len();
    let m = needle.len();
    let last = n - m;
    let mut i: usize = 0;
    while i <= last
        invariant
            n == s@.len(),
            m == needle@.len(),
            needle@.len() <= s@.len(),
            last == s@.len() - needle@.len(),
            i <= last,
            forall|k: int| 0 <= k < i ==> #[trigger] s@.subrange(k, k + needle@.len()) != needle@,
        decreases last - i,
    {
        let part = vstd::slice::slice_subrange(s, i, i + m);
        if crate::text::chars_eq(part, needle) {
            return true;
        }
        if i == last {
            return false;
        }
        i += 1;
    }
    false
}

fn contains_str(s: &[char], needle: &str) -> (r: bool)
    ensures
        r == contains_text(s@, needle@),
{
    let n = chars_of(needle);
    contains_chars(s, n.as_slice())
}

/// A file that can be reported as dead code when nothing imports it: not a
/// declaration file, a configuration file, a test, an example, a bench, a
/// module script, or a plain script at the root.
pub open spec fn may_be_dead(path: Seq<char>) -> bool {
    let name = base_name(path);
    &&& !is_suffix(".d.ts"@, name)
    &&& !(contains_text(name, ".config."@) || name == "vite.config.ts"@ || name == "next.config.js"@)
    &&& !(contains_text(path, ".test."@) || contains_text(path, ".spec."@) || contains_text(path, "/tests/"@)
        || contains_text(path, "/test/"@) || contains_text(path, "/examples/"@)
        || contains_text(path, "/benches/"@) || contains_text(path, "__tests__"@))
    &&& !(is_suffix(".mjs"@, name) || is_suffix(".cjs"@, name))
    &&& !(!has_char(path, '/') && is_suffix(".js"@, name))
}

/// Whether a file nothing imports may be reported as dead code.
pub fn can_be_dead(path: &str) -> (r: bool)
    ensures
        r == may_be_dead(path@),
{
    let p = chars_of(path);
    let slash = rfind_char(p.as_slice(), '/');
    let name = tail_after(p.as_slice(), slash);
    let nm = name.as_slice();
    if ends_with(nm, chars_of(".d.ts").as_slice()) {
        return false;
    }
    let nstr = string_of(nm);
    if contains_str(nm, ".config.") || str_eq(nstr.as_str(), "vite.config.ts") || str_eq(nstr.as_str(), "next.config.js") {
        return false;
    }
    let ps = p.as_slice();
    if contains_str(ps, ".test.") || contains_str(ps, ".spec.") || contains_str(ps, "/tests/")
        || contains_str(ps, "/test/") || contains_str(ps, "/examples/") || contains_str(ps, "/benches/")
        || contains_str(ps, "__tests__") {
        return false;
    }
    if ends_with(nm, chars_of(".mjs").as_slice()) || ends_with(nm, chars_of(".cjs").as_slice()) {
        return false;
    }
    proof { crate::text::lemma_last_index_of(path@, '/'); }
    let has_slash = slash.is_some();
    assert(has_slash == has_char(path@, '/'));
    if !has_slash && ends_with(nm, chars_of(".js").as_slice()) {
        return false;
    }
    true
}

/// Whether `path` matches the set of globs built from `patterns` (those
/// that parse), or nothing where the set cannot be built.
pub uninterp spec fn glob_set_matches(patterns: Seq<Seq<char>>, path: Seq<char>) -> Option<bool>;

/// `globset::GlobSetBuilder` with each pattern that `globset::Glob::new`
/// accepts, then `build()` and `is_match(path)`: the answer is named
/// `glob_set_matches`.
#[verifier::external_body]
fn glob_set_match(patterns: &Vec<String>, path: &str) -> (r: Option<bool>)
    ensures
        r == glob_set_matches(patterns@.map_values(|p: String| p@), path@),
{
    let mut builder = globset::GlobSetBuilder::new();
    for p in patterns {
        if let Ok(g) = globset::Glob::new(p) {
            builder.add(g);
        }
    }
    match builder.build() {
        Ok(set) => Some(set.is_match(path)),
        Err(_) => None,
    }
}

/// The first layer (of those whose globs build) that a path falls in.
pub open spec fn layer_at(layers: Seq<crate::config::Layer>, path: Seq<char>) -> Option<Seq<char>>
    decreases layers.len(),
{
    if layers.len() == 0 {
        None
    } else if glob_set_matches(layers[0].paths@.map_values(|p: String| p@), path) == Some(true) {
        Some(layers[0].name@)
    } else {
        layer_at(layers.drop_first(), path)
    }
}

/// Each file that falls in a layer, with the layer, in file order.
pub open spec fn layered_files(files: Seq<crate::model::FileNode>, layers: Seq<crate::config::Layer>) -> Seq<(crate::model::FileId, Seq<char>)>
    decreases files.len(),
{
    if files.len() == 0 {
        Seq::empty()
    } else {
        let p = layered_files(files.drop_last(), layers);
        match layer_at(layers, files.last().path@) {
            Some(l) => p.push((files.last().id, l)),
            None => p,
        }
    }
}

fn layer_for(layers: &Vec<crate::config::Layer>, path: &str) -> (r: Option<String>)
    ensures
        match r {
            Some(l) => layer_at(layers@, path@) == Some(l@),
            None => layer_at(layers@, path@) is None,
        },
{
    let mut i: usize = 0;
    assert(layers@.skip(0) =~= layers@);
    while i < layers.len()
        invariant
            i <= layers@.len(),
            layer_at(layers@, path@) == layer_at(layers@.skip(i as int), path@),
        decreases layers@.len() - i,
    {
        assert(layers@.skip(i as int)[0] == layers@[i as int]);
        assert(layers@.skip(i as int).drop_first() =~= layers@.skip(i + 1));
        match glob_set_match(&layers[i].paths, path) {
            Some(true) => {
                return Some(owned(layers[i].name.as_str()));
            },
            _ => {},
        }
        i += 1;
    }
    None
}

/// The layer of each file that falls in one: the first declared layer whose
/// globs match its path.
pub fn layer_of(graph: &crate::model::Graph, config: &crate::config::ZatlasConfig) -> (r: Vec<(crate::model::FileId, String)>)
    ensures
        r@.map_values(|e: (crate::model::FileId, String)| (e.0, e.1@)) == layered_files(graph.files@, config.layers@),
{
    let mut out: Vec<(crate::model::FileId, String)> = Vec::new();
    let mut i: usize = 0;
    assert(graph.files@.take(0) =~= Seq::<crate::model::FileNode>::empty());
    assert(out@.map_values(|e: (crate::model::FileId, String)| (e.0, e.1@)) =~= Seq::<(crate::model::FileId, Seq<char>)>::empty());
    while i < graph.files.len()
        invariant
            i <= graph.files@.len(),
            out@.map_values(|e: (crate::model::FileId, String)| (e.0, e.1@)) == layered_files(graph.files@.take(i as int), config.layers@),
        decreases graph.files@.len() - i,
    {
        assert(graph.files@.take(i + 1).drop_last() =~= graph.files@.take(i as int));
        assert(graph.files@.take(i + 1).last() == graph.files@[i as int]);
        let f = &graph.files[i];
        match layer_for(&config.layers, f.path.as_str()) {
            Some(l) => {
                let ghost before = out@.map_values(|e: (crate::model::FileId, String)| (e.0, e.1@));
                out.push((f.id, l));
                assert(out@.map_values(|e: (crate::model::FileId, String)| (e.0, e.1@)) =~= before.push((f.id, l@)));
            },
            None => {},
        }
        i += 1;
    }
    assert(graph.files@.take(i as int) =~= graph.files@);
    out
}

/// The layer a map gives a file: the last entry for it.
pub open spec fn layer_in(map: Seq<(crate::model::FileId, Seq<char>)>, id: crate::model::FileId) -> Option<Seq<char>>
    decreases map.len(),
{
    if map.len() == 0 {
        None
    } else if map.last().0 == id {
        Some(map.last().1)
    } else {
        layer_in(map.drop_last(), id)
    }
}

/// An import edge from one layer into another that no rule allows.
pub struct LayerViolation {
    pub from: crate::model::FileId,
    pub to: crate::model::FileId,
    pub from_layer: String,
    pub to_layer: String,
}

/// A violation as plain values.
pub open spec fn violation_view(v: LayerViolation) -> (crate::model::FileId, crate::model::FileId, Seq<char>, Seq<char>) {
    (v.from, v.to, v.from_layer@, v.to_layer@)
}

/// The edges (neither co-change nor containment) between files of two
/// different layers whose direction no rule allows, in edge order.
pub open spec fn violations(edges: Seq<crate::model::Edge>, map: Seq<(crate::model::FileId, Seq<char>)>, allowed: Seq<(Seq<char>, Seq<char>)>) -> Seq<(crate::model::FileId, crate::model::FileId, Seq<char>, Seq<char>)>
    decreases edges.len(),
{
    if edges.len() == 0 {
        Seq::empty()
    } else {
        let p = violations(edges.drop_last(), map, allowed);
        let e = edges.last();
        if e.kind == crate::model::EdgeKind::CoChange || e.kind == crate::model::EdgeKind::Contains {
            p
        } else {
            match (layer_in(map, e.from), layer_in(map, e.to)) {
                (Some(a), Some(b)) => if a == b || allowed.contains((a, b)) { p } else { p.push((e.from, e.to, a, b)) },
                _ => p,
            }
        }
    }
}

/// Every reported violation joins two files of different layers, in a
/// direction no rule allows: each entry is an import edge (neither
/// co-change nor containment) whose ends lie in the layers it names, those
/// layers differ, and the pair is not among the allowed ones. An edge inside
/// one layer is never reported, whatever the rules say.
pub proof fn lemma_violations_cross_layers(
    edges: Seq<crate::model::Edge>,
    map: Seq<(crate::model::FileId, Seq<char>)>,
    allowed: Seq<(Seq<char>, Seq<char>)>,
)
    ensures
        forall|k: int| 0 <= k < violations(edges, map, allowed).len() ==> {
            let v = #[trigger] violations(edges, map, allowed)[k];
            &&& v.2 != v.3
            &&& !allowed.contains((v.2, v.3))
            &&& layer_in(map, v.0) == Some(v.2)
            &&& layer_in(map, v.1) == Some(v.3)
            &&& exists|q: int| 0 <= q < edges.len() && #[trigger] edges[q].from == v.0 && edges[q].to == v.1
                && edges[q].kind != crate::model::EdgeKind::CoChange && edges[q].kind != crate::model::EdgeKind::Contains
        },
    decreases edges.len(),
{
    if edges.len() > 0 {
        let d = edges.drop_last();
        lemma_violations_cross_layers(d, map, allowed);
        let p = violations(d, map, allowed);
        let r = violations(edges, map, allowed);
        assert forall|k: int| 0 <= k < r.len() implies {
            let v = #[trigger] r[k];
            &&& v.2 != v.3
            &&& !allowed.contains((v.2, v.3))
            &&& layer_in(map, v.0) == Some(v.2)
            &&& layer_in(map, v.1) == Some(v.3)
            &&& exists|q: int| 0 <= q < edges.len() && #[trigger] edges[q].from == v.0 && edges[q].to == v.1
                && edges[q].kind != crate::model::EdgeKind::CoChange && edges[q].kind != crate::model::EdgeKind::Contains
        } by {
            if k < p.len() {
                assert(r[k] == p[k]);
                let v = p[k];
                let q = choose|q: int| 0 <= q < d.len() && #[trigger] d[q].from == v.0 && d[q].to == v.1
                    && d[q].kind != crate::model::EdgeKind::CoChange && d[q].kind != crate::model::EdgeKind::Contains;
                assert(edges[q] == d[q]);
            } else {
                let q = edges.len() - 1;
                assert(edges[q] == edges.last());
            }
        }
    }
}

/// Every import edge (neither co-change nor containment) between files of
/// two different layers, in a direction no rule allows, is reported.
pub proof fn lemma_violations_complete(
    edges: Seq<crate::model::Edge>,
    map: Seq<(crate::model::FileId, Seq<char>)>,
    allowed: Seq<(Seq<char>, Seq<char>)>,
)
    ensures
        forall|q: int| #![trigger edges[q]] 0 <= q < edges.len()
            && edges[q].kind != crate::model::EdgeKind::CoChange && edges[q].kind != crate::model::EdgeKind::Contains
            && layer_in(map, edges[q].from) is Some && layer_in(map, edges[q].to) is Some
            && layer_in(map, edges[q].from) != layer_in(map, edges[q].to)
            && !allowed.contains((layer_in(map, edges[q].from).unwrap(), layer_in(map, edges[q].to).unwrap()))
            ==> violations(edges, map, allowed).contains((edges[q].from, edges[q].to,
                layer_in(map, edges[q].from).unwrap(), layer_in(map, edges[q].to).unwrap())),
    decreases edges.len(),
{
    if edges.len() > 0 {
        let d = edges.drop_last();
        lemma_violations_complete(d, map, allowed);
        let p = violations(d, map, allowed);
        let r = violations(edges, map, allowed);
        assert forall|q: int| #![trigger edges[q]] 0 <= q < edges.len()
            && edges[q].kind != crate::model::EdgeKind::CoChange && edges[q].kind != crate::model::EdgeKind::Contains
            && layer_in(map, edges[q].from) is Some && layer_in(map, edges[q].to) is Some
            && layer_in(map, edges[q].from) != layer_in(map, edges[q].to)
            && !allowed.contains((layer_in(map, edges[q].from).unwrap(), layer_in(map, edges[q].to).unwrap()))
            implies r.contains((edges[q].from, edges[q].to,
                layer_in(map, edges[q].from).unwrap(), layer_in(map, edges[q].to).unwrap())) by {
            let a = layer_in(map, edges[q].from).unwrap();
            let b = layer_in(map, edges[q].to).unwrap();
            if q < d.len() {
                assert(edges[q] == d[q]);
                let w = (edges[q].from, edges[q].to, a, b);
                assert(p.contains(w));
                let k = choose|k: int| 0 <= k < p.len() && p[k] == w;
                assert(r[k] == p[k]);
            } else {
                assert(edges[q] == edges.last());
                assert(r[r.len() - 1] == (edges[q].from, edges[q].to, a, b));
            }
        }
    }
}

fn find_layer(map: &Vec<(crate::model::FileId, String)>, id: crate::model::FileId) -> (r: Option<&String>)
    ensures
        match r {
            Some(l) => layer_in(map@.map_values(|e: (crate::model::FileId, String)| (e.0, e.1@)), id) == Some(l@),
            None => layer_in(map@.map_values(|e: (crate::model::FileId, String)| (e.0, e.1@)), id) is None,
        },
{
    let ghost mv = map@.map_values(|e: (crate::model::FileId, String)| (e.0, e.1@));
    let mut k = map.len();
    assert(mv.take(k as int) =~= mv);
    while k > 0
        invariant
            k <= map@.len(),
            mv == map@.map_values(|e: (crate::model::FileId, String)| (e.0, e.1@)),
            layer_in(mv, id) == layer_in(mv.take(k as int), id),
        decreases k,
    {
        assert(mv.take(k as int).drop_last() =~= mv.take(k - 1));
        if map[k - 1].0.0 == id.0 {
            return Some(&map[k - 1].1);
        }
        k -= 1;
    }
    None
}

/// The import edges that cross from one declared layer into another in a
/// direction the configuration's rules do not allow; none where there are no
/// rules or no file falls in a layer.
pub fn layer_violations(graph: &crate::model::Graph, config: &crate::config::ZatlasConfig) -> (r: Vec<LayerViolation>)
    ensures
        ({
            let allowed = crate::config::rules_of(crate::config::rule_strings(*config), crate::config::declared_names(config.layers@));
            let map = layered_files(graph.files@, config.layers@);
            r@.map_values(|v: LayerViolation| violation_view(v)) == if allowed.len() == 0 || map.len() == 0 {
                Seq::empty()
            } else {
                violations(graph.edges@, map, allowed)
            }
        }),
        forall|k: int| 0 <= k < r@.len() ==> (#[trigger] r@[k]).from_layer@ != r@[k].to_layer@,
{
    let rules = config.layer_rules();
    let ghost allowed = rules@.map_values(|x: crate::config::LayerRule| (x.from@, x.to@));
    let mut out: Vec<LayerViolation> = Vec::new();
    if rules.len() == 0 {
        assert(out@.map_values(|v: LayerViolation| violation_view(v)) =~= Seq::<(crate::model::FileId, crate::model::FileId, Seq<char>, Seq<char>)>::empty());
        return out;
    }
    let map = layer_of(graph, config);
    let ghost mv = map@.map_values(|e: (crate::model::FileId, String)| (e.0, e.1@));
    if map.len() == 0 {
        assert(out@.map_values(|v: LayerViolation| violation_view(v)) =~= Seq::<(crate::model::FileId, crate::model::FileId, Seq<char>, Seq<char>)>::empty());
        return out;
    }
    let mut i: usize = 0;
    assert(graph.edges@.take(0) =~= Seq::<crate::model::Edge>::empty());
    assert(out@.map_values(|v: LayerViolation| violation_view(v)) =~= Seq::<(crate::model::FileId, crate::model::FileId, Seq<char>, Seq<char>)>::empty());
    while i < graph.edges.len()
        invariant
            i <= graph.edges@.len(),
            allowed == rules@.map_values(|x: crate::config::LayerRule| (x.from@, x.to@)),
            mv == map@.map_values(|e: (crate::model::FileId, String)| (e.0, e.1@)),
            out@.map_values(|v: LayerViolation| violation_view(v)) == violations(graph.edges@.take(i as int), mv, allowed),
        decreases graph.edges@.len() - i,
    {
        assert(graph.edges@.take(i + 1).drop_last() =~= graph.edges@.take(i as int));
        assert(graph.edges@.take(i + 1).last() == graph.edges@[i as int]);
        let e = graph.edges[i];
        let skip = match e.kind {
            crate::model::EdgeKind::CoChange | crate::model::EdgeKind::Contains => true,
            _ => false,
        };
        if !skip {
            match (find_layer(&map, e.from), find_layer(&map, e.to)) {
                (Some(a), Some(b)) => {
                    if !str_eq(a.as_str(), b.as_str()) {
                        let mut ok = false;
                        let mut k: usize = 0;
                        while k < rules.len()
                            invariant
                                k <= rules@.len(),
                                allowed == rules@.map_values(|x: crate::config::LayerRule| (x.from@, x.to@)),
                                ok <==> exists|q: int| 0 <= q < k && allowed[q] == (a@, b@),
                            decreases rules@.len() - k,
                        {
                            assert(allowed[k as int] == (rules@[k as int].from@, rules@[k as int].to@));
                            if str_eq(rules[k].from.as_str(), a.as_str()) && str_eq(rules[k].to.as_str(), b.as_str()) {
                                ok = true;
                            }
                            k += 1;
                        }
                        assert(ok <==> allowed.contains((a@, b@)));
                        if !ok {
                            let v = LayerViolation { from: e.from, to: e.to, from_layer: owned(a.as_str()), to_layer: owned(b.as_str()) };
                            let ghost before = out@.map_values(|v: LayerViolation| violation_view(v));
                            out.push(v);
                            assert(out@.map_values(|v: LayerViolation| violation_view(v)) =~= before.push(violation_view(v)));
                        }
                    }
                },
                _ => {},
            }
        }
        i += 1;
    }
    assert(graph.edges@.take(i as int) =~= graph.edges@);
    proof {
        lemma_violations_cross_layers(graph.edges@, mv, allowed);
        assert forall|k: int| 0 <= k < out@.len() implies (#[trigger] out@[k]).from_layer@ != out@[k].to_layer@ by {
            assert(out@.map_values(|v: LayerViolation| violation_view(v))[k] == violation_view(out@[k]));
        }
    }
    out
}

/// The names of files that start a program or library.
pub open spec fn root_names() -> Seq<Seq<char>> {
    seq!["main.rs"@, "lib.rs"@, "build.rs"@, "main.tsx"@, "main.ts"@, "App.tsx"@]
}

/// The files the configured entry-point globs match, in file order, or —
/// where none is configured, none builds, or none matches — the files named
/// like a program's root and the root `index` files.
pub open spec fn entry_candidates(files: Seq<crate::model::FileNode>, globs: Seq<Seq<char>>) -> Seq<crate::model::FileId> {
    let by_glob = if globs.len() == 0 {
        Seq::empty()
    } else {
        files.filter(|f: crate::model::FileNode| glob_set_matches(globs, f.path@) == Some(true)).map_values(|f: crate::model::FileNode| f.id)
    };
    if by_glob.len() > 0 {
        by_glob
    } else {
        files.filter(|f: crate::model::FileNode| root_names().contains(base_name(f.path@)) || root_index(f.path@)).map_values(|f: crate::model::FileNode| f.id)
    }
}

/// The entry points of a graph: the candidates, ascending, each once.
pub open spec fn entry_points(files: Seq<crate::model::FileNode>, globs: Seq<Seq<char>>) -> Set<crate::model::FileId> {
    entry_candidates(files, globs).to_set()
}

fn is_root_name(path: &str) -> (r: bool)
    ensures
        r == root_names().contains(base_name(path@)),
{
    let p = chars_of(path);
    let slash = rfind_char(p.as_slice(), '/');
    let name = string_of(tail_after(p.as_slice(), slash).as_slice());
    let n = name.as_str();
    let r = str_eq(n, "main.rs") || str_eq(n, "lib.rs") || str_eq(n, "build.rs") || str_eq(n, "main.tsx")
        || str_eq(n, "main.ts") || str_eq(n, "App.tsx");
    proof {
        if r {
            if n@ == "main.rs"@ { assert(root_names()[0] == n@); }
            if n@ == "lib.rs"@ { assert(root_names()[1] == n@); }
            if n@ == "build.rs"@ { assert(root_names()[2] == n@); }
            if n@ == "main.tsx"@ { assert(root_names()[3] == n@); }
            if n@ == "main.ts"@ { assert(root_names()[4] == n@); }
            if n@ == "App.tsx"@ { assert(root_names()[5] == n@); }
        } else {
            assert(!root_names().contains(n@)) by {
                if root_names().contains(n@) {
                    let k = choose|k: int| 0 <= k < 6 && root_names()[k] == n@;
                }
            }
        }
    }
    r
}

fn insert_id(v: &mut Vec<crate::model::FileId>, x: crate::model::FileId)
    requires
        forall|i: int, j: int| 0 <= i < j < old(v)@.len() ==> old(v)@[i].0 < old(v)@[j].0,
    ensures
        forall|i: int, j: int| 0 <= i < j < final(v)@.len() ==> final(v)@[i].0 < final(v)@[j].0,
        final(v)@.to_set() == old(v)@.to_set().insert(x),
{
    let ghost old_s = v@;
    let mut i: usize = 0;
    while i < v.len() && v[i].0 < x.0
        invariant
            i <= v@.len(),
            old_s == v@,
            forall|a: int, b: int| 0 <= a < b < old_s.len() ==> old_s[a].0 < old_s[b].0,
            forall|k: int| 0 <= k < i ==> old_s[k].0 < x.0,
        decreases v@.len() - i,
    {
        i += 1;
    }
    if i < v.len() && v[i].0 == x.0 {
        assert(old_s.to_set().insert(x) =~= old_s.to_set()) by {
            assert(old_s[i as int] == x);
        }
        return;
    }
    v.insert(i, x);
    let ghost new_s = v@;
    assert(new_s =~= old_s.insert(i as int, x));
    assert(new_s.to_set() =~= old_s.to_set().insert(x)) by {
        assert forall|e: crate::model::FileId| new_s.to_set().contains(e) implies old_s.to_set().insert(x).contains(e) by {
            let k = choose|k: int| 0 <= k < new_s.len() && new_s[k] == e;
            if k < i {
                assert(old_s[k] == e);
            } else if k > i {
                assert(old_s[k - 1] == e);
            }
        }
        assert forall|e: crate::model::FileId| old_s.to_set().insert(x).contains(e) implies new_s.to_set().contains(e) by {
            if e == x {
                assert(new_s[i as int] == e);
            } else {
                let k = choose|k: int| 0 <= k < old_s.len() && old_s[k] == e;
                if k < i {
                    assert(new_s[k] == e);
                } else {
                    assert(new_s[k + 1] == e);
                }
            }
        }
    }
}

/// The entry points of a graph, ascending, each once: the files the
/// configured `entrypoints` globs match, or, where that gives none, the files
/// named like a program's root and the `index` files that start an
/// application.
pub fn entrypoints_of(graph: &crate::model::Graph, config: &crate::config::ZatlasConfig) -> (r: Vec<crate::model::FileId>)
    ensures
        forall|i: int, j: int| 0 <= i < j < r@.len() ==> r@[i].0 < r@[j].0,
        r@.to_set() == entry_points(graph.files@, config.entrypoints@.map_values(|p: String| p@)),
{
    let ghost globs = config.entrypoints@.map_values(|p: String| p@);
    let ghost files = graph.files@;
    let mut out: Vec<crate::model::FileId> = Vec::new();
    let ghost keep_glob = |f: crate::model::FileNode| glob_set_matches(globs, f.path@) == Some(true);
    let ghost keep_name = |f: crate::model::FileNode| root_names().contains(base_name(f.path@)) || root_index(f.path@);
    if config.entrypoints.len() > 0 {
        let mut i: usize = 0;
        assert(out@.to_set() =~= files.take(0).filter(keep_glob).map_values(|f: crate::model::FileNode| f.id).to_set());
        while i < graph.files.len()
            invariant
                i <= files.len(),
                files == graph.files@,
                globs == config.entrypoints@.map_values(|p: String| p@),
                keep_glob == (|f: crate::model::FileNode| glob_set_matches(globs, f.path@) == Some(true)),
                forall|a: int, b: int| 0 <= a < b < out@.len() ==> out@[a].0 < out@[b].0,
                out@.to_set() == files.take(i as int).filter(keep_glob).map_values(|f: crate::model::FileNode| f.id).to_set(),
            decreases files.len() - i,
        {
            let f = &graph.files[i];
            assert(files.take(i + 1) =~= files.take(i as int).push(*f));
            proof { files.take(i as int).lemma_filter_push(*f, keep_glob); }
            let ghost before = files.take(i as int).filter(keep_glob).map_values(|f: crate::model::FileNode| f.id);
            if glob_set_match(&config.entrypoints, f.path.as_str()) == Some(true) {
                insert_id(&mut out, f.id);
                assert(before.push(f.id) =~= files.take(i + 1).filter(keep_glob).map_values(|f: crate::model::FileNode| f.id));
                proof { crate::text::lemma_push_to_set(before, f.id); }
            } else {
                assert(before =~= files.take(i + 1).filter(keep_glob).map_values(|f: crate::model::FileNode| f.id));
            }
            i += 1;
        }
        assert(files.take(i as int) =~= files);
    } else {
        assert(out@.to_set() =~= Set::<crate::model::FileId>::empty());
    }
    let ghost by_glob = if globs.len() == 0 { Seq::<crate::model::FileId>::empty() } else { files.filter(keep_glob).map_values(|f: crate::model::FileNode| f.id) };
    assert(out@.to_set() == by_glob.to_set());
    if out.len() > 0 {
        assert(by_glob.len() > 0) by {
            assert(out@.to_set().contains(out@[0]));
        }
        return out;
    }
    assert(by_glob.len() == 0) by {
        if by_glob.len() > 0 {
            assert(by_glob.to_set().contains(by_glob[0]));
        }
    }
    let mut i: usize = 0;
    assert(out@.to_set() =~= files.take(0).filter(keep_name).map_values(|f: crate::model::FileNode| f.id).to_set());
    while i < graph.files.len()
        invariant
            i <= files.len(),
            files == graph.files@,
            keep_name == (|f: crate::model::FileNode| root_names().contains(base_name(f.path@)) || root_index(f.path@)),
            forall|a: int, b: int| 0 <= a < b < out@.len() ==> out@[a].0 < out@[b].0,
            out@.to_set() == files.take(i as int).filter(keep_name).map_values(|f: crate::model::FileNode| f.id).to_set(),
        decreases files.len() - i,
    {
        let f = &graph.files[i];
        assert(files.take(i + 1) =~= files.take(i as int).push(*f));
        proof { files.take(i as int).lemma_filter_push(*f, keep_name); }
        let ghost before = files.take(i as int).filter(keep_name).map_values(|f: crate::model::FileNode| f.id);
        if is_root_name(f.path.as_str()) || is_root_index(f.path.as_str()) {
            insert_id(&mut out, f.id);
            assert(before.push(f.id) =~= files.take(i + 1).filter(keep_name).map_values(|f: crate::model::FileNode| f.id));
            proof { crate::text::lemma_push_to_set(before, f.id); }
        } else {
            assert(before =~= files.take(i + 1).filter(keep_name).map_values(|f: crate::model::FileNode| f.id));
        }
        i += 1;
    }
    assert(files.take(i as int) =~= files);
    out
}

} // verus!
