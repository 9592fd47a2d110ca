//! The findings a team has accepted, committed beside the code, so that a
//! check fails only on what is new. A finding is known by a fingerprint
//! that survives its numbers changing and its files being listed in
//! another order.
use vstd::prelude::*;
use vstd::utf8::encode_utf8;
use crate::findings::{kind_label, FindingKind, Severity};
use crate::model::{FileId, Graph};
use crate::order::{count_not_before, is_before, stable_sorted, str_before, strict_total};
use vstd::multiset::Multiset;
use crate::text::{join, owned, str_eq, string_of, trim};
use crate::cache::{blake3_hex, content_hash};

verus! {

/// The name of the baseline file at the repository root.
pub const FILE_NAME: &'static str = "zatlas-baseline.json";

/// The version of the format this library writes and understands.
pub const BASELINE_VERSION: u32 = 1;

/// One accepted finding.
#[derive(Debug, Clone, PartialEq)]
pub struct BaselineEntry {
    pub id: String,
    pub kind: FindingKind,
    pub severity: Severity,
    pub headline: String,
    pub files: Vec<String>,
    pub note: Option<String>,
}

/// The accepted findings, with the format version and the day it was made.
#[derive(Debug, Clone, PartialEq)]
pub struct Baseline {
    pub version: u32,
    pub created: String,
    pub entries: Vec<BaselineEntry>,
}

/// What a baseline reads of a finding: its kind, severity, headline and
/// files.
#[derive(Debug, Clone)]
pub struct FindingFacts {
    pub kind: FindingKind,
    pub severity: Severity,
    pub headline: String,
    pub files: Vec<FileId>,
}

/// The ids of a baseline's entries.
pub open spec fn entry_ids(b: Baseline) -> Seq<Seq<char>> {
    b.entries@.map_values(|e: BaselineEntry| e.id@)
}

impl Baseline {
    /// Whether an entry has id `id`.
    pub fn contains(&self, id: &str) -> (r: bool)
        ensures
            r == entry_ids(*self).contains(id@),
    {
        let mut i: usize = 0;
        while i < self.entries.len()
            invariant
                i <= self.entries@.len(),
                forall|k: int| 0 <= k < i ==> self.entries@[k].id@ != id@,
            decreases self.entries@.len() - i,
        {
            if str_eq(self.entries[i].id.as_str(), id) {
                assert(entry_ids(*self)[i as int] == id@);
                return true;
            }
            i += 1;
        }
        assert(!entry_ids(*self).contains(id@)) by {
            if entry_ids(*self).contains(id@) {
                let k = choose|k: int| 0 <= k < entry_ids(*self).len() && entry_ids(*self)[k] == id@;
                assert(self.entries@[k].id@ == id@);
            }
        }
        false
    }

    /// Whether nothing is accepted.
    pub fn is_empty(&self) -> (r: bool)
        ensures
            r == (self.entries@.len() == 0),
    {
        self.entries.len() == 0
    }
}

/// The paths of the listed files the graph knows, in the order listed.
pub open spec fn known_paths(graph: Graph, ids: Seq<FileId>) -> Seq<Seq<char>>
    decreases ids.len(),
{
    if ids.len() == 0 {
        Seq::empty()
    } else {
        let p = known_paths(graph, ids.drop_last());
        let id = ids.last();
        if id.0 < graph.files@.len() { p.push(graph.files@[id.0 as int].path@) } else { p }
    }
}

/// A headline without its ASCII digits.
pub open spec fn without_digits(s: Seq<char>) -> Seq<char> {
    s.filter(|c: char| !('0' <= c && c <= '9'))
}

/// Paths in byte order.
pub open spec fn path_order() -> spec_fn(Seq<char>, Seq<char>) -> bool {
    |a: Seq<char>, b: Seq<char>| str_before(a, b, false)
}

/// What a finding's fingerprint hashes: its kind's label, its files' paths
/// in order, and its headline without digits, trimmed, separated by NULs.
pub open spec fn fingerprint_text(f: FindingFacts, graph: Graph) -> Seq<char> {
    kind_label(f.kind) + seq!['\0'] + join(stable_sorted(known_paths(graph, f.files@), path_order()), '\0') + seq!['\0']
        + trim(without_digits(f.headline@))
}

/// A finding's fingerprint.
pub open spec fn fingerprint_of(f: FindingFacts, graph: Graph) -> Seq<char> {
    blake3_hex(encode_utf8(fingerprint_text(f, graph))).take(16)
}

pub(crate) fn sort_paths(v: Vec<String>) -> (r: Vec<String>)
    ensures
        r@.map_values(|s: String| s@) == stable_sorted(v@.map_values(|s: String| s@), path_order()),
{
    let ghost raw = v@.map_values(|s: String| s@);
    let ghost before = path_order();
    let total = v.len();
    let mut rest = v;
    let mut sorted: Vec<String> = Vec::new();
    let mut taken: usize = 0;
    while rest.len() > 0
        invariant
            total == raw.len(),
            taken <= raw.len(),
            rest@.map_values(|s: String| s@) == raw.skip(taken as int),
            before == path_order(),
            sorted@.map_values(|s: String| s@) == stable_sorted(raw.take(taken as int), before),
        decreases rest@.len(),
    {
        let ghost rv = rest@.map_values(|s: String| s@);
        let ghost old_rest = rest@;
        let x = rest.remove(0);
        assert(rest@ =~= old_rest.skip(1));
        assert(rest@.map_values(|s: String| s@) =~= rv.skip(1));
        assert(rv[0] == x@);
        assert(raw.skip(taken as int)[0] == raw[taken as int]);
        assert(raw.take(taken + 1).drop_last() == raw.take(taken as int));
        assert(raw.take(taken + 1).last() == x@);
        let ghost s = sorted@.map_values(|s: String| s@);
        let mut count: usize = 0;
        let mut k: usize = 0;
        while k < sorted.len()
            invariant
                k <= sorted@.len(),
                s == sorted@.map_values(|s: String| s@),
                before == path_order(),
                count == count_not_before(s.take(k as int), x@, before),
                count <= k,
            decreases sorted@.len() - k,
        {
            assert(s.take(k + 1).drop_last() == s.take(k as int));
            if !is_before(x.as_str(), sorted[k].as_str(), false) {
                count += 1;
            }
            k += 1;
        }
        assert(s.take(k as int) == s);
        let ghost xv = x@;
        sorted.insert(count, x);
        assert(sorted@.map_values(|s: String| s@) =~= s.insert(count as int, xv));
        taken += 1;
        assert(rest@.map_values(|s: String| s@) =~= raw.skip(taken as int));
    }
    assert(raw.take(taken as int) =~= raw);
    sorted
}

pub(crate) fn paths_of(graph: &Graph, ids: &Vec<FileId>) -> (r: Vec<String>)
    ensures
        r@.map_values(|s: String| s@) == known_paths(*graph, ids@),
{
    let mut out: Vec<String> = Vec::new();
    let mut i: usize = 0;
    assert(ids@.take(0) =~= Seq::<FileId>::empty());
    assert(out@.map_values(|s: String| s@) =~= Seq::<Seq<char>>::empty());
    while i < ids.len()
        invariant
            i <= ids@.len(),
            out@.map_values(|s: String| s@) == known_paths(*graph, ids@.take(i as int)),
        decreases ids@.len() - i,
    {
        assert(ids@.take(i + 1).drop_last() =~= ids@.take(i as int));
        assert(ids@.take(i + 1).last() == ids@[i as int]);
        match graph.file(ids[i]) {
            Some(n) => {
                let ghost before = out@.map_values(|s: String| s@);
                out.push(owned(n.path.as_str()));
                assert(out@.map_values(|s: String| s@) =~= before.push(n.path@));
            },
            None => {},
        }
        i += 1;
    }
    assert(ids@.take(i as int) =~= ids@);
    out
}

/// A finding's fingerprint: the first sixteen hexadecimal digits of the
/// BLAKE3 hash of its kind's label, its files' paths in order, and its
/// headline with the digits taken out, so that the numbers in a headline can
/// change and the order its files are listed in does not matter.
pub fn fingerprint(finding: &FindingFacts, graph: &Graph) -> (r: String)
    ensures
        r@ == fingerprint_of(*finding, *graph),
        r@.len() == 16,
{
    let paths = sort_paths(paths_of(graph, &finding.files));
    let mut parts: Vec<Vec<char>> = Vec::new();
    let mut i: usize = 0;
    while i < paths.len()
        invariant
            i <= paths@.len(),
            parts@.map_values(|p: Vec<char>| p@) == paths@.map_values(|s: String| s@).take(i as int),
        decreases paths@.len() - i,
    {
        let ghost before = parts@.map_values(|p: Vec<char>| p@);
        parts.push(crate::text::chars_of(paths[i].as_str()));
        assert(parts@.map_values(|p: Vec<char>| p@) =~= before.push(paths@[i as int]@));
        assert(paths@.map_values(|s: String| s@).take(i + 1) =~= paths@.map_values(|s: String| s@).take(i as int).push(paths@[i as int]@));
        i += 1;
    }
    assert(paths@.map_values(|s: String| s@).take(i as int) =~= paths@.map_values(|s: String| s@));
    let joined = crate::text::join_chars(&parts, '\0');
    let headline = crate::text::chars_of(finding.headline.as_str());
    let mut kept: Vec<char> = Vec::new();
    let mut k: usize = 0;
    while k < headline.len()
        invariant
            k <= headline@.len(),
            kept@ == without_digits(headline@.take(k as int)),
        decreases headline@.len() - k,
    {
        let c = headline[k];
        proof {
            headline@.take(k as int).lemma_filter_push(c, |c: char| !('0' <= c && c <= '9'));
        }
        assert(headline@.take(k + 1) =~= headline@.take(k as int).push(c));
        if !('0' <= c && c <= '9') {
            kept.push(c);
        }
        k += 1;
    }
    assert(headline@.take(k as int) =~= headline@);
    let stripped = crate::text::trim_chars(kept.as_slice());
    let label = crate::text::chars_of(finding.kind.label());
    let mut text: Vec<char> = label;
    text.push('\0');
    let a = crate::text::concat_chars(text.as_slice(), joined.as_slice());
    let mut b = a;
    b.push('\0');
    let c = crate::text::concat_chars(b.as_slice(), stripped.as_slice());
    assert(c@ =~= fingerprint_text(*finding, *graph));
    let whole = string_of(c.as_slice());
    let hex = crate::text::chars_of(content_hash(whole.as_str().as_bytes()).as_str());
    let first = string_of(vstd::slice::slice_subrange(hex.as_slice(), 0, 16));
    assert(hex@.subrange(0, 16) =~= blake3_hex(encode_utf8(c@)).take(16));
    first
}

/// Which findings are new, which the baseline accepts (both as positions
/// in the findings), and which accepted entries no longer occur (as
/// positions in the baseline).
pub struct Comparison {
    pub fresh: Vec<usize>,
    pub accepted: Vec<usize>,
    pub fixed: Vec<usize>,
}

/// The positions of the findings the baseline does (`accepted`) or does not
/// accept, in order.
pub open spec fn split_findings(fs: Seq<FindingFacts>, graph: Graph, b: Baseline, accepted: bool) -> Seq<usize>
    decreases fs.len(),
{
    if fs.len() == 0 {
        Seq::empty()
    } else {
        let p = split_findings(fs.drop_last(), graph, b, accepted);
        if entry_ids(b).contains(fingerprint_of(fs.last(), graph)) == accepted { p.push((fs.len() - 1) as usize) } else { p }
    }
}

/// The fingerprints of the findings, in order.
pub open spec fn fingerprints(fs: Seq<FindingFacts>, graph: Graph) -> Seq<Seq<char>> {
    fs.map_values(|f: FindingFacts| fingerprint_of(f, graph))
}

/// The positions of the entries whose id is none of `seen`, in order.
pub open spec fn gone_entries(es: Seq<BaselineEntry>, seen: Seq<Seq<char>>) -> Seq<usize>
    decreases es.len(),
{
    if es.len() == 0 {
        Seq::empty()
    } else {
        let p = gone_entries(es.drop_last(), seen);
        if seen.contains(es.last().id@) { p } else { p.push((es.len() - 1) as usize) }
    }
}

/// Splits findings into those the baseline has not seen and those it
/// accepts, and names the accepted entries that no longer occur.
pub fn compare(findings: &[FindingFacts], graph: &Graph, baseline: &Baseline) -> (c: Comparison)
    ensures
        c.fresh@ == split_findings(findings@, *graph, *baseline, false),
        c.accepted@ == split_findings(findings@, *graph, *baseline, true),
        c.fixed@ == gone_entries(baseline.entries@, fingerprints(findings@, *graph)),
{
    let mut fresh: Vec<usize> = Vec::new();
    let mut accepted: Vec<usize> = Vec::new();
    let mut seen: Vec<String> = Vec::new();
    let mut i: usize = 0;
    assert(findings@.take(0) =~= Seq::<FindingFacts>::empty());
    while i < findings.len()
        invariant
            i <= findings@.len(),
            fresh@ == split_findings(findings@.take(i as int), *graph, *baseline, false),
            accepted@ == split_findings(findings@.take(i as int), *graph, *baseline, true),
            seen@.map_values(|s: String| s@) == fingerprints(findings@.take(i as int), *graph),
        decreases findings@.len() - i,
    {
        assert(findings@.take(i + 1).drop_last() =~= findings@.take(i as int));
        assert(findings@.take(i + 1).last() == findings@[i as int]);
        let id = fingerprint(&findings[i], graph);
        if baseline.contains(id.as_str()) {
            accepted.push(i);
        } else {
            fresh.push(i);
        }
        let ghost before = seen@.map_values(|s: String| s@);
        seen.push(id);
        assert(seen@.map_values(|s: String| s@) =~= before.push(fingerprint_of(findings@[i as int], *graph)));
        assert(fingerprints(findings@.take(i + 1), *graph) =~= fingerprints(findings@.take(i as int), *graph).push(fingerprint_of(findings@[i as int], *graph)));
        i += 1;
    }
    assert(findings@.take(i as int) =~= findings@);
    let ghost sv = seen@.map_values(|s: String| s@);
    let mut fixed: Vec<usize> = Vec::new();
    let mut j: usize = 0;
    let es = &baseline.entries;
    assert(es@.take(0) =~= Seq::<BaselineEntry>::empty());
    while j < es.len()
        invariant
            j <= es@.len(),
            es == &baseline.entries,
            sv == seen@.map_values(|s: String| s@),
            fixed@ == gone_entries(es@.take(j as int), sv),
        decreases es@.len() - j,
    {
        assert(es@.take(j + 1).drop_last() =~= es@.take(j as int));
        assert(es@.take(j + 1).last() == es@[j as int]);
        let mut found = false;
        let mut k: usize = 0;
        while k < seen.len()
            invariant
                k <= seen@.len(),
                j < es@.len(),
                es == &baseline.entries,
                sv == seen@.map_values(|s: String| s@),
                found <==> exists|q: int| 0 <= q < k && sv[q] == es@[j as int].id@,
            decreases seen@.len() - k,
        {
            assert(sv[k as int] == seen@[k as int]@);
            if str_eq(seen[k].as_str(), es[j].id.as_str()) {
                found = true;
            }
            k += 1;
        }
        assert(found <==> sv.contains(es@[j as int].id@));
        if !found {
            fixed.push(j);
        }
        j += 1;
    }
    assert(es@.take(j as int) =~= es@);
    Comparison { fresh, accepted, fixed }
}

/// An entry as plain values.
pub open spec fn entry_view(e: BaselineEntry) -> (Seq<char>, FindingKind, Severity, Seq<char>, Seq<Seq<char>>, Option<Seq<char>>) {
    (e.id@, e.kind, e.severity, e.headline@, e.files@.map_values(|s: String| s@), match e.note { Some(n) => Some(n@), None => None })
}

/// The entry a finding becomes: its fingerprint, kind, severity, headline
/// and the paths of its files, with no note.
pub open spec fn entry_of(f: FindingFacts, graph: Graph) -> (Seq<char>, FindingKind, Severity, Seq<char>, Seq<Seq<char>>, Option<Seq<char>>) {
    (fingerprint_of(f, graph), f.kind, f.severity, f.headline@, known_paths(graph, f.files@), None)
}

/// Entries ordered by id.
pub open spec fn id_order() -> spec_fn((Seq<char>, FindingKind, Severity, Seq<char>, Seq<Seq<char>>, Option<Seq<char>>), (Seq<char>, FindingKind, Severity, Seq<char>, Seq<Seq<char>>, Option<Seq<char>>)) -> bool {
    |a: (Seq<char>, FindingKind, Severity, Seq<char>, Seq<Seq<char>>, Option<Seq<char>>), b: (Seq<char>, FindingKind, Severity, Seq<char>, Seq<Seq<char>>, Option<Seq<char>>)| str_before(a.0, b.0, false)
}

/// The first of each run of neighbours with one id.
pub open spec fn first_of_runs(s: Seq<(Seq<char>, FindingKind, Severity, Seq<char>, Seq<Seq<char>>, Option<Seq<char>>)>) -> Seq<(Seq<char>, FindingKind, Severity, Seq<char>, Seq<Seq<char>>, Option<Seq<char>>)>
    decreases s.len(),
{
    if s.len() == 0 {
        s
    } else {
        let p = first_of_runs(s.drop_last());
        if p.len() > 0 && p.last().0 == s.last().0 { p } else { p.push(s.last()) }
    }
}

fn sort_entries(v: Vec<BaselineEntry>) -> (r: Vec<BaselineEntry>)
    ensures
        r@.map_values(|e: BaselineEntry| entry_view(e)) == stable_sorted(v@.map_values(|e: BaselineEntry| entry_view(e)), id_order()),
{
    let ghost raw = v@.map_values(|e: BaselineEntry| entry_view(e));
    let ghost before = id_order();
    let total = v.len();
    let mut rest = v;
    let mut sorted: Vec<BaselineEntry> = Vec::new();
    let mut taken: usize = 0;
    while rest.len() > 0
        invariant
            total == raw.len(),
            taken <= raw.len(),
            rest@.map_values(|e: BaselineEntry| entry_view(e)) == raw.skip(taken as int),
            before == id_order(),
            sorted@.map_values(|e: BaselineEntry| entry_view(e)) == stable_sorted(raw.take(taken as int), before),
        decreases rest@.len(),
    {
        let ghost rv = rest@.map_values(|e: BaselineEntry| entry_view(e));
        let ghost old_rest = rest@;
        let x = rest.remove(0);
        assert(rest@ =~= old_rest.skip(1));
        assert(rest@.map_values(|e: BaselineEntry| entry_view(e)) =~= rv.skip(1));
        assert(rv[0] == entry_view(x));
        assert(raw.skip(taken as int)[0] == raw[taken as int]);
        assert(raw.take(taken + 1).drop_last() == raw.take(taken as int));
        assert(raw.take(taken + 1).last() == entry_view(x));
        let ghost s = sorted@.map_values(|e: BaselineEntry| entry_view(e));
        let mut count: usize = 0;
        let mut k: usize = 0;
        while k < sorted.len()
            invariant
                k <= sorted@.len(),
                s == sorted@.map_values(|e: BaselineEntry| entry_view(e)),
                before == id_order(),
                count == count_not_before(s.take(k as int), entry_view(x), before),
                count <= k,
            decreases sorted@.len() - k,
        {
            assert(s.take(k + 1).drop_last() == s.take(k as int));
            if !is_before(x.id.as_str(), sorted[k].id.as_str(), false) {
                count += 1;
            }
            k += 1;
        }
        assert(s.take(k as int) == s);
        let ghost xv = entry_view(x);
        sorted.insert(count, x);
        assert(sorted@.map_values(|e: BaselineEntry| entry_view(e)) =~= s.insert(count as int, xv));
        taken += 1;
        assert(rest@.map_values(|e: BaselineEntry| entry_view(e)) =~= raw.skip(taken as int));
    }
    assert(raw.take(taken as int) =~= raw);
    sorted
}

/// A baseline accepting every finding: one entry per fingerprint (the
/// first finding with it), sorted by id, dated `today`.
pub fn from_findings(findings: &[FindingFacts], graph: &Graph, today: &str) -> (b: Baseline)
    ensures
        b.version == BASELINE_VERSION,
        b.created@ == today@,
        b.entries@.map_values(|e: BaselineEntry| entry_view(e))
            == first_of_runs(stable_sorted(findings@.map_values(|f: FindingFacts| entry_of(f, *graph)), id_order())),
{
    let mut entries: Vec<BaselineEntry> = Vec::new();
    let mut i: usize = 0;
    assert(entries@.map_values(|e: BaselineEntry| entry_view(e)) =~= findings@.take(0).map_values(|f: FindingFacts| entry_of(f, *graph)));
    while i < findings.len()
        invariant
            i <= findings@.len(),
            entries@.map_values(|e: BaselineEntry| entry_view(e)) == findings@.take(i as int).map_values(|f: FindingFacts| entry_of(f, *graph)),
        decreases findings@.len() - i,
    {
        let f = &findings[i];
        let paths = paths_of(graph, &f.files);
        let e = BaselineEntry {
            id: fingerprint(f, graph),
            kind: f.kind,
            severity: f.severity,
            headline: owned(f.headline.as_str()),
            files: paths,
            note: None,
        };
        let ghost before = entries@.map_values(|e: BaselineEntry| entry_view(e));
        entries.push(e);
        assert(entries@.map_values(|e: BaselineEntry| entry_view(e)) =~= before.push(entry_view(e)));
        assert(findings@.take(i + 1).map_values(|f: FindingFacts| entry_of(f, *graph))
            =~= findings@.take(i as int).map_values(|f: FindingFacts| entry_of(f, *graph)).push(entry_of(*f, *graph)));
        i += 1;
    }
    assert(findings@.take(i as int) =~= findings@);
    let sorted = sort_entries(entries);
    let ghost sv = sorted@.map_values(|e: BaselineEntry| entry_view(e));
    let mut rest = sorted;
    let mut kept: Vec<BaselineEntry> = Vec::new();
    let mut taken: usize = 0;
    let total = rest.len();
    assert(sv.take(0) =~= Seq::<(Seq<char>, FindingKind, Severity, Seq<char>, Seq<Seq<char>>, Option<Seq<char>>)>::empty());
    assert(kept@.map_values(|e: BaselineEntry| entry_view(e)) =~= first_of_runs(sv.take(0)));
    while rest.len() > 0
        invariant
            total == sv.len(),
            taken <= sv.len(),
            rest@.map_values(|e: BaselineEntry| entry_view(e)) == sv.skip(taken as int),
            rest@.len() == sv.len() - taken,
            kept@.map_values(|e: BaselineEntry| entry_view(e)) == first_of_runs(sv.take(taken as int)),
        decreases rest@.len(),
    {
        let ghost rv = rest@.map_values(|e: BaselineEntry| entry_view(e));
        let ghost old_rest = rest@;
        let x = rest.remove(0);
        assert(rest@ =~= old_rest.skip(1));
        assert(rest@.map_values(|e: BaselineEntry| entry_view(e)) =~= rv.skip(1));
        assert(rv[0] == entry_view(x));
        assert(sv.skip(taken as int)[0] == sv[taken as int]);
        assert(sv.take(taken + 1).drop_last() =~= sv.take(taken as int));
        assert(sv.take(taken + 1).last() == entry_view(x));
        let n = kept.len();
        if n > 0 && str_eq(kept[n - 1].id.as_str(), x.id.as_str()) {
        } else {
            let ghost before = kept@.map_values(|e: BaselineEntry| entry_view(e));
            kept.push(x);
            assert(kept@.map_values(|e: BaselineEntry| entry_view(e)) =~= before.push(rv[0]));
        }
        taken += 1;
        assert(rest@.map_values(|e: BaselineEntry| entry_view(e)) =~= sv.skip(taken as int));
    }
    assert(sv.take(taken as int) =~= sv);
    Baseline { version: BASELINE_VERSION, created: owned(today), entries: kept }
}

/// Where the baseline file of a repository is.
pub fn path_of(root: &str) -> (r: String)
    ensures
        exists|sep: char| (sep == '/' || sep == '\\') && r@ == crate::paths::rel_joined(root@, FILE_NAME@, sep),
{
    crate::paths::rel_to_path(root, FILE_NAME)
}

/// A finding whose headline changed only in its digits (a line count grew, a
/// line number moved) keeps its fingerprint.
pub proof fn lemma_digits_do_not_change_a_fingerprint(a: FindingFacts, b: FindingFacts, graph: Graph)
    requires
        a.kind == b.kind,
        a.files@ == b.files@,
        without_digits(a.headline@) == without_digits(b.headline@),
    ensures
        fingerprint_of(a, graph) == fingerprint_of(b, graph),
{
    assert(fingerprint_text(a, graph) == fingerprint_text(b, graph));
}

pub proof fn lemma_path_order_total()
    ensures
        strict_total(path_order()),
{
    assert forall|a: Seq<char>| !#[trigger] (path_order())(a, a) by {
        crate::order::lemma_before_irreflexive(a, false);
    }
    assert forall|a: Seq<char>, b: Seq<char>, c: Seq<char>| #[trigger] (path_order())(a, b) && #[trigger] (path_order())(b, c) implies (path_order())(a, c) by {
        crate::order::lemma_before_transitive(a, b, c, false);
    }
    assert forall|a: Seq<char>, b: Seq<char>| a != b implies #[trigger] (path_order())(a, b) || (path_order())(b, a) by {
        crate::order::lemma_before_total(a, b, false);
    }
}

/// What one listed file adds to a finding's paths.
pub open spec fn path_part(graph: Graph, id: FileId) -> Multiset<Seq<char>> {
    if id.0 < graph.files@.len() { Multiset::singleton(graph.files@[id.0 as int].path@) } else { Multiset::empty() }
}

proof fn lemma_known_paths_remove(graph: Graph, s: Seq<FileId>, k: int)
    requires
        0 <= k < s.len(),
    ensures
        known_paths(graph, s).to_multiset() == known_paths(graph, s.remove(k)).to_multiset().add(path_part(graph, s[k])),
    decreases s.len(),
{
    broadcast use vstd::seq_lib::group_to_multiset_ensures;
    broadcast use vstd::multiset::group_multiset_axioms;
    let q = s.drop_last();
    if k == s.len() - 1 {
        assert(s.remove(k) =~= q);
        if s.last().0 < graph.files@.len() {
            vstd::seq_lib::to_multiset_build(known_paths(graph, q), graph.files@[s.last().0 as int].path@);
        }
        assert(known_paths(graph, s).to_multiset() =~= known_paths(graph, q).to_multiset().add(path_part(graph, s[k])));
    } else {
        lemma_known_paths_remove(graph, q, k);
        assert(s.remove(k) =~= q.remove(k).push(s.last()));
        assert(s.remove(k).drop_last() =~= q.remove(k));
        assert(q[k] == s[k]);
        if s.last().0 < graph.files@.len() {
            let path = graph.files@[s.last().0 as int].path@;
            vstd::seq_lib::to_multiset_build(known_paths(graph, q), path);
            vstd::seq_lib::to_multiset_build(known_paths(graph, q.remove(k)), path);
        }
        assert(known_paths(graph, s).to_multiset() =~= known_paths(graph, s.remove(k)).to_multiset().add(path_part(graph, s[k])));
    }
}

proof fn lemma_known_paths_permutation(graph: Graph, a: Seq<FileId>, b: Seq<FileId>)
    requires
        a.to_multiset() == b.to_multiset(),
    ensures
        known_paths(graph, a).to_multiset() == known_paths(graph, b).to_multiset(),
    decreases a.len(),
{
    broadcast use vstd::seq_lib::group_to_multiset_ensures;
    broadcast use vstd::multiset::group_multiset_axioms;
    vstd::seq_lib::to_multiset_len(a);
    vstd::seq_lib::to_multiset_len(b);
    if a.len() == 0 {
        assert(b.len() == 0);
        assert(a =~= b);
    } else {
        let x = a.last();
        vstd::seq_lib::to_multiset_contains(a, x);
        vstd::seq_lib::to_multiset_contains(b, x);
        assert(b.contains(x));
        let k = choose|k: int| 0 <= k < b.len() && b[k] == x;
        vstd::seq_lib::to_multiset_remove(b, k);
        vstd::seq_lib::to_multiset_remove(a, a.len() - 1);
        assert(a.remove(a.len() - 1) =~= a.drop_last());
        lemma_known_paths_permutation(graph, a.drop_last(), b.remove(k));
        lemma_known_paths_remove(graph, b, k);
        lemma_known_paths_remove(graph, a, a.len() - 1);
    }
}

/// A finding whose files are listed in another order (a cycle reported from
/// another of its members) keeps its fingerprint.
pub proof fn lemma_file_order_does_not_change_a_fingerprint(a: FindingFacts, b: FindingFacts, graph: Graph)
    requires
        a.kind == b.kind,
        a.headline@ == b.headline@,
        a.files@.to_multiset() == b.files@.to_multiset(),
    ensures
        fingerprint_of(a, graph) == fingerprint_of(b, graph),
{
    lemma_known_paths_permutation(graph, a.files@, b.files@);
    lemma_path_order_total();
    crate::order::lemma_stable_sorted_permutation(known_paths(graph, a.files@), known_paths(graph, b.files@), path_order());
    assert(fingerprint_text(a, graph) == fingerprint_text(b, graph));
}

} // verus!
