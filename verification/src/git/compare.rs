//! Comparing two revisions: what each side looks like, and which paths a
//! revision can be written out under on every platform.
use vstd::prelude::*;
use crate::baseline::{known_paths, path_order, paths_of, sort_paths};
use crate::graph::Tangle;
use crate::model::Graph;
use crate::order::{count_not_before, is_before, str_before};
use crate::walk::{language_of_file, language_of_name};
use crate::text::{ends_with, is_prefix, last_piece, starts_with};
use crate::config::strs;
use crate::git::timetravel::{added_paths, diff, moved_paths, moved_sorted, moved_view, paths_distinct, removed_paths, table_view};
use crate::order::{insert_sorted, stable_sorted, strictly_sorted};
use crate::text::{lemma_push_to_set, str_eq};
use crate::text::{ascii_lower, ascii_lowercase, before_either, chars_eq, chars_of, cut_before_either, is_suffix, split, split_chars};

verus! {

/// The numbers that describe one side of a comparison.
#[derive(Debug, Clone, PartialEq, Eq)]
pub struct RefSide {
    pub reference: String,
    pub commit: String,
    pub files: usize,
    pub loc: u64,
    pub edges: usize,
    pub cycles: usize,
    pub unresolved: usize,
    pub findings: usize,
}

/// Two revisions side by side, with what changed between them.
#[derive(Debug, Clone, PartialEq, Eq)]
pub struct RefComparison {
    pub base: RefSide,
    pub head: RefSide,
    pub added: Vec<String>,
    pub removed: Vec<String>,
    pub grown: Vec<(String, i64)>,
    pub shrunk: Vec<(String, i64)>,
    pub cycles_introduced: Vec<Vec<String>>,
    pub cycles_resolved: Vec<Vec<String>>,
    pub findings_new: Vec<String>,
    pub findings_fixed: Vec<String>,
    pub skipped: Vec<String>,
}

/// Device names Windows reserves, in lower case.
pub open spec fn reserved_names() -> Seq<Seq<char>> {
    seq!["con"@, "prn"@, "aux"@, "nul"@, "com1"@, "com2"@, "com3"@, "com4"@, "com5"@, "com6"@,
        "com7"@, "com8"@, "com9"@, "lpt1"@, "lpt2"@, "lpt3"@, "lpt4"@, "lpt5"@, "lpt6"@, "lpt7"@,
        "lpt8"@, "lpt9"@]
}

/// Characters Windows forbids in a file name.
pub open spec fn forbidden_char(c: char) -> bool {
    c == '<' || c == '>' || c == ':' || c == '"' || c == '|' || c == '?' || c == '*'
}

/// A path segment Windows can create as written: empty, or one that does not
/// end in a dot or a space, has no forbidden character, and whose part
/// before the first dot is no reserved device name, in any case.
pub open spec fn segment_safe(seg: Seq<char>) -> bool {
    seg.len() == 0 || {
        &&& !(seg.last() == '.' || seg.last() == ' ')
        &&& !(exists|i: int| 0 <= i < seg.len() && forbidden_char(#[trigger] seg[i]))
        &&& !reserved_names().contains(ascii_lower(before_either(seg, '.', '.')))
    }
}

/// Every segment of a `/`-separated path is safe on Windows.
pub open spec fn path_safe(rel: Seq<char>) -> bool {
    forall|k: int| 0 <= k < split(rel, '/').len() ==> segment_safe(#[trigger] split(rel, '/')[k])
}

fn reserved_list() -> (v: Vec<&'static str>)
    ensures
        v@.map_values(|s: &str| s@) == reserved_names(),
{
    let v = vec!["con", "prn", "aux", "nul", "com1", "com2", "com3", "com4", "com5", "com6",
        "com7", "com8", "com9", "lpt1", "lpt2", "lpt3", "lpt4", "lpt5", "lpt6", "lpt7",
        "lpt8", "lpt9"];
    assert(v@.map_values(|s: &str| s@) =~= reserved_names());
    v
}

fn is_reserved(stem: &[char], names: &Vec<&'static str>) -> (r: bool)
    requires
        names@.map_values(|s: &str| s@) == reserved_names(),
    ensures
        r == reserved_names().contains(stem@),
{
    let ghost rn = reserved_names();
    let mut i: usize = 0;
    while i < names.len()
        invariant
            i <= names@.len(),
            names@.map_values(|s: &str| s@) == rn,
            rn == reserved_names(),
            forall|k: int| 0 <= k < i ==> rn[k] != stem@,
        decreases names@.len() - i,
    {
        let n = chars_of(names[i]);
        assert(rn[i as int] == names@[i as int]@);
        if chars_eq(stem, n.as_slice()) {
            return true;
        }
        i += 1;
    }
    false
}

fn segment_ok(seg: &[char], names: &Vec<&'static str>) -> (r: bool)
    requires
        names@.map_values(|s: &str| s@) == reserved_names(),
    ensures
        r == segment_safe(seg@),
{
    let n = seg.len();
    if n == 0 {
        return true;
    }
    if seg[n - 1] == '.' || seg[n - 1] == ' ' {
        return false;
    }
    let mut i: usize = 0;
    while i < n
        invariant
            n == seg@.len(),
            i <= n,
            forall|k: int| 0 <= k < i ==> !forbidden_char(#[trigger] seg@[k]),
        decreases n - i,
    {
        let c = seg[i];
        if c == '<' || c == '>' || c == ':' || c == '"' || c == '|' || c == '?' || c == '*' {
            assert(forbidden_char(seg@[i as int]));
            return false;
        }
        i += 1;
    }
    let stem = cut_before_either(seg, '.', '.');
    let lower = ascii_lowercase(stem.as_slice());
    !is_reserved(lower.as_slice(), names)
}

/// Whether every segment of `rel` can be created as written on Windows.
pub fn windows_safe(rel: &str) -> (r: bool)
    ensures
        r == path_safe(rel@),
{
    let cs = chars_of(rel);
    let segs = split_chars(cs.as_slice(), '/');
    let ghost ss = split(rel@, '/');
    let names = reserved_list();
    let mut i: usize = 0;
    while i < segs.len()
        invariant
            i <= segs@.len(),
            ss == split(rel@, '/'),
            segs@.len() == ss.len(),
            forall|k: int| 0 <= k < segs@.len() ==> #[trigger] segs@[k]@ == ss[k],
            names@.map_values(|s: &str| s@) == reserved_names(),
            forall|k: int| 0 <= k < i ==> segment_safe(#[trigger] ss[k]),
        decreases segs@.len() - i,
    {
        if !segment_ok(segs[i].as_slice(), &names) {
            assert(!segment_safe(ss[i as int]));
            return false;
        }
        i += 1;
    }
    true
}


/// What the analysis of one revision gives a comparison: its numbers, each
/// file's line count (one entry per path), its cycles as paths, its
/// findings' headlines, and the paths it could not write out.
#[derive(Debug, Clone, PartialEq, Eq)]
pub struct RefSnapshot {
    pub side: RefSide,
    pub loc: Vec<(String, u32)>,
    pub cycles: Vec<Vec<String>>,
    pub findings: Vec<String>,
    pub skipped: Vec<String>,
}

/// A cycle as the texts of its paths.
pub open spec fn cycle_view(c: Vec<String>) -> Seq<Seq<char>> {
    strs(c@)
}

/// Cycles as the texts of their paths.
pub open spec fn cycles_view(cs: Seq<Vec<String>>) -> Seq<Seq<Seq<char>>> {
    cs.map_values(|c: Vec<String>| cycle_view(c))
}

/// The entries of `s` that `other` does not hold, in order.
pub open spec fn absent_from<T>(s: Seq<T>, other: Seq<T>) -> Seq<T> {
    s.filter(|x: T| !other.contains(x))
}

fn copy_strs(v: &Vec<String>) -> (r: Vec<String>)
    ensures
        r@ == v@,
{
    let mut out: Vec<String> = Vec::new();
    let mut i: usize = 0;
    while i < v.len()
        invariant
            i <= v@.len(),
            out@ == v@.take(i as int),
        decreases v@.len() - i,
    {
        out.push(v[i].clone());
        i += 1;
        assert(out@ =~= v@.take(i as int));
    }
    assert(v@.take(i as int) =~= v@);
    out
}

fn copy_side(s: &RefSide) -> (r: RefSide)
    ensures
        r == *s,
{
    RefSide {
        reference: s.reference.clone(),
        commit: s.commit.clone(),
        files: s.files,
        loc: s.loc,
        edges: s.edges,
        cycles: s.cycles,
        unresolved: s.unresolved,
        findings: s.findings,
    }
}

fn same_paths(a: &Vec<String>, b: &Vec<String>) -> (r: bool)
    ensures
        r == (cycle_view(*a) == cycle_view(*b)),
{
    if a.len() != b.len() {
        proof {
            if cycle_view(*a) == cycle_view(*b) {
                assert(cycle_view(*a).len() == cycle_view(*b).len());
            }
        }
        return false;
    }
    let mut i: usize = 0;
    while i < a.len()
        invariant
            i <= a@.len(),
            a@.len() == b@.len(),
            forall|k: int| 0 <= k < i ==> #[trigger] a@[k]@ == b@[k]@,
        decreases a@.len() - i,
    {
        if !str_eq(a[i].as_str(), b[i].as_str()) {
            assert(cycle_view(*a)[i as int] != cycle_view(*b)[i as int]);
            return false;
        }
        i += 1;
    }
    assert(cycle_view(*a) =~= cycle_view(*b));
    true
}

fn holds_cycle(cs: &Vec<Vec<String>>, c: &Vec<String>) -> (r: bool)
    ensures
        r == cycles_view(cs@).contains(cycle_view(*c)),
{
    let mut i: usize = 0;
    while i < cs.len()
        invariant
            i <= cs@.len(),
            forall|k: int| 0 <= k < i ==> cycles_view(cs@)[k] != cycle_view(*c),
        decreases cs@.len() - i,
    {
        if same_paths(&cs[i], c) {
            assert(cycles_view(cs@)[i as int] == cycle_view(*c));
            return true;
        }
        i += 1;
    }
    false
}

fn cycles_absent(items: &Vec<Vec<String>>, other: &Vec<Vec<String>>) -> (r: Vec<Vec<String>>)
    ensures
        cycles_view(r@) == absent_from(cycles_view(items@), cycles_view(other@)),
{
    let ghost iv = cycles_view(items@);
    let ghost ov = cycles_view(other@);
    let mut out: Vec<Vec<String>> = Vec::new();
    let mut i: usize = 0;
    while i < items.len()
        invariant
            i <= items@.len(),
            iv == cycles_view(items@),
            ov == cycles_view(other@),
            cycles_view(out@) == absent_from(iv.take(i as int), ov),
        decreases items@.len() - i,
    {
        let ghost c = iv[i as int];
        proof {
            iv.take(i as int).lemma_filter_push(c, |x: Seq<Seq<char>>| !ov.contains(x));
        }
        assert(iv.take(i + 1) =~= iv.take(i as int).push(c));
        if !holds_cycle(other, &items[i]) {
            let ghost before = cycles_view(out@);
            out.push(copy_strs(&items[i]));
            assert(cycles_view(out@) =~= before.push(c));
        }
        i += 1;
    }
    assert(iv.take(i as int) =~= iv);
    out
}

fn strs_absent(items: &Vec<String>, other: &Vec<String>) -> (r: Vec<String>)
    ensures
        strs(r@) == absent_from(strs(items@), strs(other@)),
{
    let ghost iv = strs(items@);
    let ghost ov = strs(other@);
    let mut out: Vec<String> = Vec::new();
    let mut i: usize = 0;
    while i < items.len()
        invariant
            i <= items@.len(),
            iv == strs(items@),
            ov == strs(other@),
            strs(out@) == absent_from(iv.take(i as int), ov),
        decreases items@.len() - i,
    {
        let ghost c = iv[i as int];
        proof {
            iv.take(i as int).lemma_filter_push(c, |x: Seq<char>| !ov.contains(x));
        }
        assert(iv.take(i + 1) =~= iv.take(i as int).push(c));
        let mut held = false;
        let mut k: usize = 0;
        while k < other.len()
            invariant
                k <= other@.len(),
                ov == strs(other@),
                held == ov.take(k as int).contains(c),
                i < items@.len(),
                c == items@[i as int]@,
            decreases other@.len() - k,
        {
            proof {
                lemma_push_to_set(ov.take(k as int), ov[k as int]);
            }
            assert(ov.take(k + 1) =~= ov.take(k as int).push(ov[k as int]));
            if str_eq(other[k].as_str(), items[i].as_str()) {
                held = true;
            }
            assert(ov.take(k + 1).contains(c) == (ov.take(k as int).contains(c) || ov[k as int] == c)) by {
                if ov.take(k + 1).contains(c) {
                    let j = choose|j: int| 0 <= j < k + 1 && #[trigger] ov.take(k + 1)[j] == c;
                    if j < k {
                        assert(ov.take(k as int)[j] == c);
                    }
                }
                if ov.take(k as int).contains(c) {
                    let j = choose|j: int| 0 <= j < k && #[trigger] ov.take(k as int)[j] == c;
                    assert(ov.take(k + 1)[j] == c);
                }
                if ov[k as int] == c {
                    assert(ov.take(k + 1)[k as int] == c);
                }
            }
            k += 1;
        }
        assert(ov.take(k as int) =~= ov);
        if !held {
            let ghost before = strs(out@);
            out.push(items[i].clone());
            assert(strs(out@) =~= before.push(c));
        }
        i += 1;
    }
    assert(iv.take(i as int) =~= iv);
    out
}

/// The paths two revisions could not write out, sorted and each once.
fn skipped_union(a: &Vec<String>, b: &Vec<String>) -> (r: Vec<String>)
    ensures
        strictly_sorted(strs(r@), false),
        strs(r@).to_set() == strs(a@).to_set().union(strs(b@).to_set()),
{
    let mut out: Vec<String> = Vec::new();
    let mut i: usize = 0;
    assert(strs(out@).to_set() =~= strs(a@).take(0).to_set());
    while i < a.len()
        invariant
            i <= a@.len(),
            strictly_sorted(strs(out@), false),
            strs(out@).to_set() == strs(a@).take(i as int).to_set(),
        decreases a@.len() - i,
    {
        proof {
            lemma_push_to_set(strs(a@).take(i as int), a@[i as int]@);
        }
        assert(strs(a@).take(i + 1) =~= strs(a@).take(i as int).push(a@[i as int]@));
        insert_sorted(&mut out, a[i].clone(), false);
        i += 1;
    }
    assert(strs(a@).take(i as int) =~= strs(a@));
    let mut j: usize = 0;
    assert(strs(b@).take(0).to_set() =~= Set::<Seq<char>>::empty());
    while j < b.len()
        invariant
            j <= b@.len(),
            strictly_sorted(strs(out@), false),
            strs(out@).to_set() == strs(a@).to_set().union(strs(b@).take(j as int).to_set()),
        decreases b@.len() - j,
    {
        proof {
            lemma_push_to_set(strs(b@).take(j as int), b@[j as int]@);
        }
        assert(strs(b@).take(j + 1) =~= strs(b@).take(j as int).push(b@[j as int]@));
        insert_sorted(&mut out, b[j].clone(), false);
        assert(strs(out@).to_set() =~= strs(a@).to_set().union(strs(b@).take(j + 1).to_set()));
        j += 1;
    }
    assert(strs(b@).take(j as int) =~= strs(b@));
    out
}

/// What changed between two analysed revisions: files added and removed
/// (sorted by path), files that grew (largest growth first) or shrank
/// (largest loss first), ties by path; cycles of the head that the base
/// does not have and the reverse, in their own order; headlines of findings
/// new to the head and those gone from it, sorted; and every path either
/// side could not write out, sorted and each once.
pub fn compare_sides(base: &RefSnapshot, head: &RefSnapshot) -> (r: RefComparison)
    requires
        paths_distinct(table_view(base.loc@)),
        paths_distinct(table_view(head.loc@)),
    ensures
        r.base == base.side,
        r.head == head.side,
        strictly_sorted(strs(r.added@), false),
        strs(r.added@).to_set() == added_paths(table_view(base.loc@), table_view(head.loc@)),
        strictly_sorted(strs(r.removed@), false),
        strs(r.removed@).to_set() == removed_paths(table_view(base.loc@), table_view(head.loc@)),
        moved_sorted(moved_view(r.grown@), true),
        moved_view(r.grown@).to_set() == moved_paths(table_view(base.loc@), table_view(head.loc@), true),
        moved_sorted(moved_view(r.shrunk@), false),
        moved_view(r.shrunk@).to_set() == moved_paths(table_view(base.loc@), table_view(head.loc@), false),
        cycles_view(r.cycles_introduced@) == absent_from(cycles_view(head.cycles@), cycles_view(base.cycles@)),
        cycles_view(r.cycles_resolved@) == absent_from(cycles_view(base.cycles@), cycles_view(head.cycles@)),
        strs(r.findings_new@) == stable_sorted(absent_from(strs(head.findings@), strs(base.findings@)), path_order()),
        strs(r.findings_fixed@) == stable_sorted(absent_from(strs(base.findings@), strs(head.findings@)), path_order()),
        strictly_sorted(strs(r.skipped@), false),
        strs(r.skipped@).to_set() == strs(base.skipped@).to_set().union(strs(head.skipped@).to_set()),
{
    let d = diff(base.loc.as_slice(), head.loc.as_slice());
    let cycles_introduced = cycles_absent(&head.cycles, &base.cycles);
    let cycles_resolved = cycles_absent(&base.cycles, &head.cycles);
    let findings_new = sort_paths(strs_absent(&head.findings, &base.findings));
    let findings_fixed = sort_paths(strs_absent(&base.findings, &head.findings));
    let skipped = skipped_union(&base.skipped, &head.skipped);
    proof {
        assert(strs(d.added@) =~= d.added@.map_values(|s: String| s@));
        assert(strs(d.removed@) =~= d.removed@.map_values(|s: String| s@));
    }
    RefComparison {
        base: copy_side(&base.side),
        head: copy_side(&head.side),
        added: d.added,
        removed: d.removed,
        grown: d.grown,
        shrunk: d.shrunk,
        cycles_introduced,
        cycles_resolved,
        findings_new,
        findings_fixed,
        skipped,
    }
}


/// The files of a revision worth analysing: manifests and configuration
/// that change how imports resolve, and source in a known language.
pub open spec fn wanted_path(path: Seq<char>) -> bool {
    let name = last_piece(path, '/');
    ||| name == "Cargo.toml"@ || name == "package.json"@ || name == "go.mod"@ || name == "pyproject.toml"@
        || name == "setup.py"@ || name == "setup.cfg"@ || name == ".gitignore"@ || name == "zatlas.toml"@
    ||| is_prefix("tsconfig."@, name) && is_suffix(".json"@, name)
    ||| is_prefix("jsconfig."@, name) && is_suffix(".json"@, name)
    ||| language_of_name(name) is Some
}

/// Whether a revision's file at `path` is worth analysing.
pub fn wanted(path: &str) -> (r: bool)
    ensures
        r == wanted_path(path@),
{
    let cs = chars_of(path);
    let n = cs.len();
    proof { crate::text::lemma_last_index_of(path@, '/'); }
    let name_chars = match crate::text::rfind_char(cs.as_slice(), '/') {
        Some(i) => vstd::slice::slice_to_vec(vstd::slice::slice_subrange(cs.as_slice(), i + 1, n)),
        None => cs.clone(),
    };
    assert(name_chars@ == last_piece(path@, '/'));
    let name = crate::text::string_of(name_chars.as_slice());
    let nm = name.as_str();
    if str_eq(nm, "Cargo.toml") || str_eq(nm, "package.json") || str_eq(nm, "go.mod") || str_eq(nm, "pyproject.toml")
        || str_eq(nm, "setup.py") || str_eq(nm, "setup.cfg") || str_eq(nm, ".gitignore") || str_eq(nm, "zatlas.toml") {
        return true;
    }
    let json = chars_of(".json");
    if starts_with(name_chars.as_slice(), chars_of("tsconfig.").as_slice()) && ends_with(name_chars.as_slice(), json.as_slice()) {
        return true;
    }
    if starts_with(name_chars.as_slice(), chars_of("jsconfig.").as_slice()) && ends_with(name_chars.as_slice(), json.as_slice()) {
        return true;
    }
    language_of_file(nm).is_some()
}

/// A path that stays inside the directory it is written under: no segment
/// is `.` or `..`.
pub open spec fn plain_relative_path(path: Seq<char>) -> bool {
    forall|k: int| 0 <= k < split(path, '/').len() ==> #[trigger] split(path, '/')[k] != "."@ && split(path, '/')[k] != ".."@
}

/// Whether a revision's file can be written under a fresh directory as it
/// is named.
pub fn plain_relative(path: &str) -> (r: bool)
    ensures
        r == plain_relative_path(path@),
{
    let cs = chars_of(path);
    let segs = split_chars(cs.as_slice(), '/');
    let ghost ss = split(path@, '/');
    let dot = chars_of(".");
    let dots = chars_of("..");
    let mut i: usize = 0;
    while i < segs.len()
        invariant
            i <= segs@.len(),
            segs@.len() == ss.len(),
            ss == split(path@, '/'),
            dot@ == "."@,
            dots@ == ".."@,
            forall|k: int| 0 <= k < segs@.len() ==> #[trigger] segs@[k]@ == ss[k],
            forall|k: int| 0 <= k < i ==> #[trigger] ss[k] != "."@ && ss[k] != ".."@,
        decreases segs@.len() - i,
    {
        if chars_eq(segs[i].as_slice(), dot.as_slice()) || chars_eq(segs[i].as_slice(), dots.as_slice()) {
            return false;
        }
        i += 1;
    }
    true
}

/// Lists of paths in dictionary order, entry by entry.
pub open spec fn paths_before(a: Seq<Seq<char>>, b: Seq<Seq<char>>) -> bool
    decreases a.len(),
{
    if a.len() == 0 {
        b.len() > 0
    } else if b.len() == 0 {
        false
    } else if a[0] == b[0] {
        paths_before(a.drop_first(), b.drop_first())
    } else {
        str_before(a[0], b[0], false)
    }
}

/// The order cycles are listed in.
pub open spec fn cycle_order() -> spec_fn(Seq<Seq<char>>, Seq<Seq<char>>) -> bool {
    |a: Seq<Seq<char>>, b: Seq<Seq<char>>| paths_before(a, b)
}

fn lists_before(a: &Vec<String>, b: &Vec<String>) -> (r: bool)
    ensures
        r == paths_before(strs(a@), strs(b@)),
{
    let mut i: usize = 0;
    assert(strs(a@).skip(0) =~= strs(a@));
    assert(strs(b@).skip(0) =~= strs(b@));
    while i < a.len() && i < b.len()
        invariant
            i <= a@.len(),
            i <= b@.len(),
            paths_before(strs(a@), strs(b@)) == paths_before(strs(a@).skip(i as int), strs(b@).skip(i as int)),
        decreases a@.len() - i,
    {
        let ghost x = strs(a@).skip(i as int);
        let ghost y = strs(b@).skip(i as int);
        assert(x[0] == a@[i as int]@);
        assert(y[0] == b@[i as int]@);
        if !str_eq(a[i].as_str(), b[i].as_str()) {
            return is_before(a[i].as_str(), b[i].as_str(), false);
        }
        assert(x.drop_first() =~= strs(a@).skip(i + 1));
        assert(y.drop_first() =~= strs(b@).skip(i + 1));
        i += 1;
    }
    i < b.len()
}

/// A tangle's files as paths, sorted.
pub open spec fn cycle_key(graph: Graph, t: Tangle) -> Seq<Seq<char>> {
    stable_sorted(known_paths(graph, t.members@), path_order())
}

/// The cycles of a revision as keys that survive renumbering: each
/// tangle's file paths sorted, the list sorted.
pub open spec fn cycle_keys_of(graph: Graph, found: Seq<Tangle>) -> Seq<Seq<Seq<char>>> {
    stable_sorted(found.map_values(|t: Tangle| cycle_key(graph, t)), cycle_order())
}

/// The cycles `found` in a graph as lists of paths: each sorted, then the
/// lists sorted.
pub fn cycle_keys(graph: &Graph, found: &[Tangle]) -> (r: Vec<Vec<String>>)
    ensures
        cycles_view(r@) == cycle_keys_of(*graph, found@),
{
    let ghost raw = found@.map_values(|t: Tangle| cycle_key(*graph, t));
    let ghost before = cycle_order();
    let mut sorted: Vec<Vec<String>> = Vec::new();
    let mut taken: usize = 0;
    while taken < found.len()
        invariant
            taken <= found@.len(),
            raw == found@.map_values(|t: Tangle| cycle_key(*graph, t)),
            before == cycle_order(),
            cycles_view(sorted@) == stable_sorted(raw.take(taken as int), before),
        decreases found@.len() - taken,
    {
        let key = sort_paths(paths_of(graph, &found[taken].members));
        let ghost xv = raw[taken as int];
        assert(strs(key@) =~= key@.map_values(|s: String| s@));
        assert(cycle_view(key) == xv);
        assert(raw.take(taken + 1).drop_last() =~= raw.take(taken as int));
        assert(raw.take(taken + 1).last() == xv);
        let ghost s = cycles_view(sorted@);
        let mut count: usize = 0;
        let mut k: usize = 0;
        while k < sorted.len()
            invariant
                k <= sorted@.len(),
                s == cycles_view(sorted@),
                before == cycle_order(),
                cycle_view(key) == xv,
                count == count_not_before(s.take(k as int), xv, before),
                count <= k,
            decreases sorted@.len() - k,
        {
            assert(s.take(k + 1).drop_last() == s.take(k as int));
            if !lists_before(&key, &sorted[k]) {
                count += 1;
            }
            k += 1;
        }
        assert(s.take(k as int) == s);
        sorted.insert(count, key);
        assert(cycles_view(sorted@) =~= s.insert(count as int, xv));
        taken += 1;
    }
    assert(raw.take(taken as int) =~= raw);
    sorted
}

} // verus!
