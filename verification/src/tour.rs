//! A reading order for someone new to a repository: the entry point first,
//! then the files that explain the most of what is still unexplained.
//! This module holds the parts of the tour that are whole-number logic:
//! which entry point comes first, which files a stop covers, and how a stop
//! explains itself.
use vstd::prelude::*;
use crate::graph::{dependencies_of, ids_where, reached_from, Adjacency};
use crate::model::{FileId, FileNode, Graph};
use crate::order::{count_not_before, is_before, stable_sorted, str_before};
use crate::text::{concat, decimal, decimal_string, last_piece};

verus! {

/// A stop on the tour: the file, why it is worth reading, and how many
/// files it helps explain.
#[derive(Debug, Clone, PartialEq)]
pub struct TourStop {
    pub file: FileId,
    pub path: String,
    pub loc: u32,
    pub reason: String,
    pub unlocks: usize,
}

/// How long a tour is, and how small a file may be and still be a stop.
pub struct TourOptions {
    pub max_stops: usize,
    pub min_loc: u32,
}

impl Default for TourOptions {
    fn default() -> (r: TourOptions)
        ensures
            r.max_stops == 10,
            r.min_loc == 25,
    {
        TourOptions { max_stops: 10, min_loc: 25 }
    }
}

/// `n` lines, in words: `1 line`, otherwise the number and `lines`.
pub open spec fn lines_text(n: u32) -> Seq<char> {
    if n == 1 {
        "1 line"@
    } else {
        decimal(n as nat) + " lines"@
    }
}

/// A line count in words.
pub fn lines(n: u32) -> (r: String)
    ensures
        r@ == lines_text(n),
{
    if n == 1 {
        crate::text::owned("1 line")
    } else {
        let d = decimal_string(n as u64);
        concat(d.as_str(), " lines")
    }
}

/// How conventional an entry point's file name is: `main` first, then the
/// application component, then a library root, then anything else.
pub open spec fn entry_rank_of(path: Seq<char>) -> u8 {
    let name = last_piece(path, '/');
    if name == "main.rs"@ || name == "main.ts"@ || name == "main.tsx"@ {
        0
    } else if name == "App.tsx"@ || name == "app.tsx"@ {
        1
    } else if name == "lib.rs"@ {
        2
    } else {
        3
    }
}

/// The rank of an entry point's path.
pub fn entry_rank(path: &str) -> (r: u8)
    ensures
        r == entry_rank_of(path@),
{
    let cs = crate::text::chars_of(path);
    let n = cs.len();
    proof { crate::text::lemma_last_index_of(path@, '/'); }
    let name_chars = match crate::text::rfind_char(cs.as_slice(), '/') {
        Some(i) => vstd::slice::slice_to_vec(vstd::slice::slice_subrange(cs.as_slice(), i + 1, n)),
        None => cs.clone(),
    };
    assert(name_chars@ == last_piece(path@, '/'));
    let name = crate::text::string_of(name_chars.as_slice());
    let n = name.as_str();
    if crate::text::str_eq(n, "main.rs") || crate::text::str_eq(n, "main.ts") || crate::text::str_eq(n, "main.tsx") {
        0
    } else if crate::text::str_eq(n, "App.tsx") || crate::text::str_eq(n, "app.tsx") {
        1
    } else if crate::text::str_eq(n, "lib.rs") {
        2
    } else {
        3
    }
}

/// Marks a stop and the files it depends on as explained.
pub fn mark(covered: &mut Vec<bool>, structural: &Adjacency, id: FileId)
    ensures
        final(covered)@.len() == old(covered)@.len(),
        forall|k: int| 0 <= k < old(covered)@.len() ==> #[trigger] final(covered)@[k] == (old(covered)@[k]
            || k == id.0 as int
            || (id.0 < structural.succ().len()
                && exists|q: int| 0 <= q < structural.succ()[id.0 as int].len() && structural.succ()[id.0 as int][q].0 == k)),
{
    let ghost before = covered@;
    let n = covered.len();
    let i = id.0 as usize;
    if i < n {
        covered.set(i, true);
    }
    let deps = structural.dependencies(id);
    let mut j: usize = 0;
    while j < deps.len()
        invariant
            j <= deps@.len(),
            covered@.len() == n,
            n == before.len(),
            id.0 < structural.succ().len() ==> deps@ == structural.succ()[id.0 as int],
            id.0 >= structural.succ().len() ==> deps@.len() == 0,
            forall|k: int| 0 <= k < n ==> #[trigger] covered@[k] == (before[k] || k == id.0 as int
                || exists|q: int| 0 <= q < j && deps@[q].0 == k),
        decreases deps@.len() - j,
    {
        let d = deps[j].0 as usize;
        if d < n {
            covered.set(d, true);
        }
        assert forall|k: int| 0 <= k < n implies #[trigger] covered@[k] == (before[k] || k == id.0 as int
            || exists|q: int| 0 <= q < j + 1 && deps@[q].0 == k) by {
            if k == d as int {
                assert(deps@[j as int].0 == k);
            }
        }
        j += 1;
    }

}

/// Why a file is the next stop: how many unexplained files depend on it,
/// and how often it changed where that is five times or more.
pub open spec fn next_reason_text(fresh: usize, churn: u32) -> Seq<char> {
    (if fresh == 1 {
        "One file still unexplained depends on this one"@
    } else {
        decimal(fresh as nat) + " files still unexplained depend on this one"@
    }) + (if churn >= 5 { ", and it has changed "@ + decimal(churn as nat) + " times recently"@ } else { Seq::empty() })
        + seq!['.']
}

/// The reason given for a stop chosen for what it explains.
pub fn next_reason(fresh: usize, churn: u32) -> (r: String)
    ensures
        r@ == next_reason_text(fresh, churn),
{
    let head = if fresh == 1 {
        crate::text::owned("One file still unexplained depends on this one")
    } else {
        let d = decimal_string(fresh as u64);
        concat(d.as_str(), " files still unexplained depend on this one")
    };
    let with_churn = if churn >= 5 {
        let a = concat(head.as_str(), ", and it has changed ");
        let d = decimal_string(churn as u64);
        let b = concat(a.as_str(), d.as_str());
        let c = concat(b.as_str(), " times recently");
        assert(c@ =~= head@ + ", and it has changed "@ + decimal(churn as nat) + " times recently"@);
        c
    } else {
        assert(head@ + Seq::<char>::empty() =~= head@);
        head
    };
    let r = concat(with_churn.as_str(), ".");
    proof { reveal_strlit("."); }
    assert(r@ =~= next_reason_text(fresh, churn));
    r
}

/// The reason given for a stop chosen, when nothing stands out, by size
/// and how often it is imported.
pub open spec fn fallback_reason_text(fan_in: usize, loc: u32) -> Seq<char> {
    if fan_in > 0 {
        "Nothing here stands out as an obvious next step, so this is where the substance is: "@
            + lines_text(loc) + ", imported by "@ + decimal(fan_in as nat) + seq!['.']
    } else {
        "Nothing here stands out as an obvious next step, so this is simply one of the larger files, at "@
            + lines_text(loc) + seq!['.']
    }
}

/// The reason given for a stop chosen by size when nothing stands out.
pub fn fallback_reason(fan_in: usize, loc: u32) -> (r: String)
    ensures
        r@ == fallback_reason_text(fan_in, loc),
{
    let l = lines(loc);
    proof { reveal_strlit("."); }
    if fan_in > 0 {
        let a = concat("Nothing here stands out as an obvious next step, so this is where the substance is: ", l.as_str());
        let b = concat(a.as_str(), ", imported by ");
        let d = decimal_string(fan_in as u64);
        let c = concat(b.as_str(), d.as_str());
        let r = concat(c.as_str(), ".");
        assert(r@ =~= fallback_reason_text(fan_in, loc));
        r
    } else {
        let a = concat("Nothing here stands out as an obvious next step, so this is simply one of the larger files, at ", l.as_str());
        let r = concat(a.as_str(), ".");
        assert(r@ =~= fallback_reason_text(fan_in, loc));
        r
    }
}

/// The reason given for the entry point.
pub open spec fn entry_reason_text(reach: usize, total: usize) -> Seq<char> {
    "The entry point. Reading it shows what the program does on startup, and it reaches "@
        + decimal(reach as nat) + " of the "@ + decimal(total as nat) + " files here."@
}

/// The reason given for an entry point that reaches `reach` of `total` files.
pub fn entry_reason(reach: usize, total: usize) -> (r: String)
    ensures
        r@ == entry_reason_text(reach, total),
{
    let a = decimal_string(reach as u64);
    let b = concat("The entry point. Reading it shows what the program does on startup, and it reaches ", a.as_str());
    let c = concat(b.as_str(), " of the ");
    let d = decimal_string(total as u64);
    let e = concat(c.as_str(), d.as_str());
    let r = concat(e.as_str(), " files here.");
    assert(r@ =~= entry_reason_text(reach, total));
    r
}


/// An entry point comes before another when its file name is more
/// conventional, or equally so and the file is longer.
pub open spec fn entry_before(files: Seq<FileNode>) -> spec_fn(FileId, FileId) -> bool {
    |a: FileId, b: FileId| {
        let ra = entry_rank_of(files[a.0 as int].path@);
        let rb = entry_rank_of(files[b.0 as int].path@);
        ra < rb || (ra == rb && files[a.0 as int].loc > files[b.0 as int].loc)
    }
}

/// The entry points the graph has a file for, most promising first (ties
/// keep the order given).
pub open spec fn entry_order(files: Seq<FileNode>, entrypoints: Seq<FileId>) -> Seq<FileId> {
    stable_sorted(entrypoints.filter(|id: FileId| id.0 < files.len()), entry_before(files))
}

/// The entry order ranks entry points by how conventional their file name
/// is and, among names of equal rank, puts the longer file first: for any two
/// positions `i < j`, the rank at `i` is no worse than at `j`, and where the
/// ranks are equal the file at `i` has at least as many lines of code. It
/// holds exactly the entry points the graph has a file for.
pub proof fn lemma_entry_order_by_rank_then_size(files: Seq<FileNode>, entrypoints: Seq<FileId>)
    ensures
        ({
            let o = entry_order(files, entrypoints);
            &&& o.to_multiset() == entrypoints.filter(|id: FileId| id.0 < files.len()).to_multiset()
            &&& forall|i: int, j: int| 0 <= i < j < o.len() ==> {
                let ri = entry_rank_of(files[o[i].0 as int].path@);
                let rj = entry_rank_of(files[o[j].0 as int].path@);
                &&& ri <= rj
                &&& ri == rj ==> files[(#[trigger] o[i]).0 as int].loc >= files[(#[trigger] o[j]).0 as int].loc
            }
        }),
{
    let e = entrypoints.filter(|id: FileId| id.0 < files.len());
    let bt = entry_before(files);
    let key = |id: FileId| (entry_rank_of(files[id.0 as int].path@) as int, -(files[id.0 as int].loc as int));
    let bu = |x: (int, int), y: (int, int)| x.0 < y.0 || (x.0 == y.0 && x.1 < y.1);
    assert forall|a: FileId, b: FileId| #[trigger] bt(a, b) == bu(key(a), key(b)) by {}
    assert(crate::order::strict_total(bu)) by {
        assert forall|x: (int, int), y: (int, int)| x != y implies #[trigger] bu(x, y) || bu(y, x) by {
            if x.0 == y.0 {
                assert(x.1 != y.1);
            }
        }
    }
    crate::order::lemma_stable_sorted_keyed(e, key, bt, bu);
    crate::order::lemma_stable_sorted_sorted(e.map_values(key), bu);
    crate::order::lemma_stable_sorted_multiset(e, bt);
    crate::order::lemma_stable_sorted_len(e, bt);
    let o = entry_order(files, entrypoints);
    let k = stable_sorted(e.map_values(key), bu);
    assert forall|i: int, j: int| 0 <= i < j < o.len() implies {
        let ri = entry_rank_of(files[o[i].0 as int].path@);
        let rj = entry_rank_of(files[o[j].0 as int].path@);
        &&& ri <= rj
        &&& ri == rj ==> files[(#[trigger] o[i]).0 as int].loc >= files[(#[trigger] o[j]).0 as int].loc
    } by {
        assert(o.map_values(key)[i] == key(o[i]));
        assert(o.map_values(key)[j] == key(o[j]));
        assert(!bu(k[j], k[i]));
    }
}

/// The entry points the tour opens with: of the first two in order, those
/// of at least two lines.
pub open spec fn opening_entries(files: Seq<FileNode>, entrypoints: Seq<FileId>) -> Seq<FileId> {
    let o = entry_order(files, entrypoints);
    (if o.len() > 2 { o.take(2) } else { o }).filter(|id: FileId| files[id.0 as int].loc >= 2)
}

/// Whether covering the stop `id` covers the file at `k`: the stop itself
/// and every file it depends on.
pub open spec fn covers(s: Seq<Seq<FileId>>, id: FileId, k: int) -> bool {
    k == id.0 as int || (id.0 < s.len() && exists|q: int| 0 <= q < s[id.0 as int].len() && s[id.0 as int][q].0 == k)
}

/// How many files an entry point reaches, itself excluded.
pub open spec fn reach_of(s: Seq<Seq<FileId>>, id: FileId) -> nat {
    ids_where(s.len(), |y: FileId| !seq![id].contains(y) && reached_from(s, seq![id], y)).len()
}

/// A stop for the entry point `id`.
pub open spec fn entry_stop_ok(stop: TourStop, files: Seq<FileNode>, s: Seq<Seq<FileId>>, id: FileId) -> bool {
    &&& stop.file == files[id.0 as int].id
    &&& stop.path@ == files[id.0 as int].path@
    &&& stop.loc == files[id.0 as int].loc
    &&& stop.unlocks == reach_of(s, id)
    &&& stop.reason@ == entry_reason_text(stop.unlocks, files.len() as usize)
}

fn entry_is_before(graph: &Graph, a: FileId, b: FileId) -> (r: bool)
    requires
        a.0 < graph.files@.len(),
        b.0 < graph.files@.len(),
    ensures
        r == (entry_before(graph.files@))(a, b),
{
    let fa = &graph.files[a.0 as usize];
    let fb = &graph.files[b.0 as usize];
    let ra = entry_rank(fa.path.as_str());
    let rb = entry_rank(fb.path.as_str());
    ra < rb || (ra == rb && fa.loc > fb.loc)
}

fn sorted_entries(graph: &Graph, entrypoints: &[FileId]) -> (r: Vec<FileId>)
    ensures
        r@ == entry_order(graph.files@, entrypoints@),
        forall|k: int| 0 <= k < r@.len() ==> (#[trigger] r@[k]).0 < graph.files@.len(),
{
    let ghost files = graph.files@;
    let ghost keep = |id: FileId| id.0 < files.len();
    let mut known: Vec<FileId> = Vec::new();
    let mut i: usize = 0;
    while i < entrypoints.len()
        invariant
            i <= entrypoints@.len(),
            files == graph.files@,
            keep == (|id: FileId| id.0 < files.len()),
            known@ == entrypoints@.take(i as int).filter(keep),
            forall|k: int| 0 <= k < known@.len() ==> (#[trigger] known@[k]).0 < files.len(),
        decreases entrypoints@.len() - i,
    {
        proof {
            entrypoints@.take(i as int).lemma_filter_push(entrypoints@[i as int], keep);
        }
        assert(entrypoints@.take(i + 1) =~= entrypoints@.take(i as int).push(entrypoints@[i as int]));
        let id = entrypoints[i];
        if (id.0 as usize) < graph.files.len() {
            known.push(id);
        }
        i += 1;
    }
    assert(entrypoints@.take(i as int) =~= entrypoints@);
    let ghost raw = known@;
    let ghost before = entry_before(files);
    let total = known.len();
    let mut rest = known;
    let mut sorted: Vec<FileId> = Vec::new();
    let mut taken: usize = 0;
    while rest.len() > 0
        invariant
            files == graph.files@,
            total == raw.len(),
            taken + rest@.len() == raw.len(),
            rest@ == raw.skip(taken as int),
            before == entry_before(files),
            sorted@ == stable_sorted(raw.take(taken as int), before),
            forall|k: int| 0 <= k < raw.len() ==> (#[trigger] raw[k]).0 < files.len(),
            forall|k: int| 0 <= k < sorted@.len() ==> (#[trigger] sorted@[k]).0 < files.len(),
        decreases rest@.len(),
    {
        let ghost old_rest = rest@;
        let x = rest.remove(0);
        assert(rest@ =~= old_rest.skip(1));
        assert(raw.take(taken + 1).drop_last() == raw.take(taken as int));
        assert(raw.take(taken + 1).last() == x);
        assert(raw[taken as int] == x);
        let ghost s = sorted@;
        let mut count: usize = 0;
        let mut k: usize = 0;
        while k < sorted.len()
            invariant
                k <= sorted@.len(),
                s == sorted@,
                files == graph.files@,
                x.0 < files.len(),
                forall|j: int| 0 <= j < sorted@.len() ==> (#[trigger] sorted@[j]).0 < files.len(),
                before == entry_before(files),
                count == count_not_before(s.take(k as int), x, before),
                count <= k,
            decreases sorted@.len() - k,
        {
            assert(s.take(k + 1).drop_last() == s.take(k as int));
            if !entry_is_before(graph, x, sorted[k]) {
                count += 1;
            }
            k += 1;
        }
        assert(s.take(k as int) == s);
        sorted.insert(count, x);
        taken += 1;
        assert(rest@ =~= raw.skip(taken as int));
    }
    assert(raw.take(taken as int) =~= raw);
    sorted
}

/// The stops the tour opens with: of the two most promising entry points
/// the graph has a file for (by file name, then size), each of at least two
/// lines, with how many files it reaches; each marks itself and what it
/// depends on as covered.
pub fn entry_stops(graph: &Graph, structural: &Adjacency, entrypoints: &[FileId], covered: &mut Vec<bool>) -> (r: Vec<TourStop>)
    requires
        graph.files@.len() <= u32::MAX,
    ensures
        r@.len() == opening_entries(graph.files@, entrypoints@).len(),
        forall|i: int| 0 <= i < r@.len() ==> #[trigger] entry_stop_ok(r@[i], graph.files@, structural.succ(),
            opening_entries(graph.files@, entrypoints@)[i]),
        final(covered)@.len() == old(covered)@.len(),
        forall|k: int| 0 <= k < old(covered)@.len() ==> #[trigger] final(covered)@[k] == (old(covered)@[k]
            || exists|i: int| 0 <= i < opening_entries(graph.files@, entrypoints@).len()
                && covers(structural.succ(), opening_entries(graph.files@, entrypoints@)[i], k)),
{
    let ghost files = graph.files@;
    let ghost s = structural.succ();
    let ghost start = covered@;
    let order = sorted_entries(graph, entrypoints);
    let ghost o = order@;
    let ghost firsts = if o.len() > 2 { o.take(2) } else { o };
    let ghost keep = |id: FileId| files[id.0 as int].loc >= 2;
    let limit: usize = if order.len() > 2 { 2 } else { order.len() };
    let mut stops: Vec<TourStop> = Vec::new();
    let mut t: usize = 0;
    while t < limit
        invariant
            t <= limit,
            limit == firsts.len(),
            files == graph.files@,
            files.len() <= u32::MAX,
            s == structural.succ(),
            o == order@,
            o == entry_order(files, entrypoints@),
            firsts == (if o.len() > 2 { o.take(2) } else { o }),
            keep == (|id: FileId| files[id.0 as int].loc >= 2),
            forall|k: int| 0 <= k < o.len() ==> (#[trigger] o[k]).0 < files.len(),
            stops@.len() == firsts.take(t as int).filter(keep).len(),
            forall|i: int| 0 <= i < stops@.len() ==> #[trigger] entry_stop_ok(stops@[i], files, s, firsts.take(t as int).filter(keep)[i]),
            covered@.len() == start.len(),
            forall|k: int| 0 <= k < start.len() ==> #[trigger] covered@[k] == (start[k]
                || exists|i: int| 0 <= i < firsts.take(t as int).filter(keep).len()
                    && covers(s, firsts.take(t as int).filter(keep)[i], k)),
        decreases limit - t,
    {
        let id = order[t];
        assert(firsts[t as int] == id);
        let ghost chosen = firsts.take(t as int).filter(keep);
        proof {
            firsts.take(t as int).lemma_filter_push(id, keep);
        }
        assert(firsts.take(t + 1) =~= firsts.take(t as int).push(id));
        let f = &graph.files[id.0 as usize];
        if f.loc >= 2 {
            let mut seeds: Vec<FileId> = Vec::new();
            seeds.push(id);
            assert(seeds@ =~= seq![id]);
            let reach = dependencies_of(structural, seeds.as_slice()).len();
            let ghost before_mark = covered@;
            mark(covered, structural, id);
            let stop = TourStop {
                file: f.id,
                path: f.path.clone(),
                loc: f.loc,
                reason: entry_reason(reach, graph.files.len()),
                unlocks: reach,
            };
            let ghost old_stops = stops@;
            stops.push(stop);
            let ghost now = chosen.push(id);
            assert(firsts.take(t + 1).filter(keep) == now);
            assert forall|i: int| 0 <= i < stops@.len() implies #[trigger] entry_stop_ok(stops@[i], files, s, now[i]) by {
                if i < chosen.len() {
                    assert(stops@[i] == old_stops[i]);
                }
            }
            assert forall|k: int| 0 <= k < start.len() implies #[trigger] covered@[k] == (start[k]
                || exists|i: int| 0 <= i < now.len() && covers(s, now[i], k)) by {
                if covers(s, id, k) {
                    assert(covers(s, now[chosen.len() as int], k));
                }
                if exists|i: int| 0 <= i < chosen.len() && covers(s, chosen[i], k) {
                    let i = choose|i: int| 0 <= i < chosen.len() && covers(s, chosen[i], k);
                    assert(now[i] == chosen[i]);
                }
                if exists|i: int| 0 <= i < now.len() && covers(s, now[i], k) {
                    let i = choose|i: int| 0 <= i < now.len() && covers(s, now[i], k);
                    if i < chosen.len() {
                        assert(now[i] == chosen[i]);
                    }
                }
                assert(before_mark[k] == (start[k] || exists|i: int| 0 <= i < chosen.len() && covers(s, chosen[i], k)));
            }
        }
        t += 1;
    }
    assert(firsts.take(t as int) =~= firsts);
    stops
}

/// How many files import `id`.
pub open spec fn fan_in_of(pred: Seq<Seq<FileId>>, id: FileId) -> nat {
    if id.0 < pred.len() { pred[id.0 as int].len() } else { 0 }
}

/// What a file weighs when nothing stands out: its lines times one more
/// than the files importing it.
pub open spec fn weight_of(pred: Seq<Seq<FileId>>, f: FileNode) -> int {
    f.loc * (1 + fan_in_of(pred, f.id))
}

/// Heavier files first, ties by path.
pub open spec fn fallback_before(pred: Seq<Seq<FileId>>) -> spec_fn(FileNode, FileNode) -> bool {
    |a: FileNode, b: FileNode| weight_of(pred, a) > weight_of(pred, b)
        || (weight_of(pred, a) == weight_of(pred, b) && str_before(a.path@, b.path@, false))
}

/// The files that can fill a short tour: not already stops, and not empty.
pub open spec fn fallback_candidates(files: Seq<FileNode>, already: Seq<FileId>) -> Seq<FileNode> {
    files.filter(|f: FileNode| !already.contains(f.id) && f.loc > 0)
}

/// The heaviest `count` candidates (all of them, when there are fewer).
pub open spec fn fallback_choice(files: Seq<FileNode>, pred: Seq<Seq<FileId>>, already: Seq<FileId>, count: nat) -> Seq<FileNode> {
    let s = stable_sorted(fallback_candidates(files, already), fallback_before(pred));
    if count < s.len() { s.take(count as int) } else { s }
}

/// A stop for a file chosen by weight.
pub open spec fn fallback_stop_ok(stop: TourStop, f: FileNode, pred: Seq<Seq<FileId>>) -> bool {
    &&& stop.file == f.id
    &&& stop.path@ == f.path@
    &&& stop.loc == f.loc
    &&& stop.unlocks == fan_in_of(pred, f.id)
    &&& stop.reason@ == fallback_reason_text(stop.unlocks, f.loc)
}

/// The files at positions `idx`.
pub open spec fn files_at(files: Seq<FileNode>, idx: Seq<usize>) -> Seq<FileNode> {
    idx.map_values(|i: usize| files[i as int])
}

fn holds_id(ids: &[FileId], id: FileId) -> (r: bool)
    ensures
        r == ids@.contains(id),
{
    let mut i: usize = 0;
    while i < ids.len()
        invariant
            i <= ids@.len(),
            forall|k: int| 0 <= k < i ==> ids@[k] != id,
        decreases ids@.len() - i,
    {
        if ids[i] == id {
            assert(ids@[i as int] == id);
            return true;
        }
        i += 1;
    }
    false
}

fn weight(graph: &Graph, deps: &Adjacency, i: usize) -> (r: u128)
    requires
        i < graph.files@.len(),
    ensures
        r == weight_of(deps.pred(), graph.files@[i as int]),
{
    let f = &graph.files[i];
    let fan_in = deps.fan_in(f.id);
    assert(fan_in == fan_in_of(deps.pred(), f.id));
    assert((f.loc as u128) * (1 + fan_in as u128) <= 0xffff_ffffu128 * 0x1_0000_0000_0000_0000u128) by (nonlinear_arith)
        requires
            f.loc <= 0xffff_ffffu32,
            fan_in <= 0xffff_ffff_ffff_ffffu64,
    {}
    (f.loc as u128) * (1 + fan_in as u128)
}

fn fallback_is_before(graph: &Graph, deps: &Adjacency, a: usize, b: usize) -> (r: bool)
    requires
        a < graph.files@.len(),
        b < graph.files@.len(),
    ensures
        r == (fallback_before(deps.pred()))(graph.files@[a as int], graph.files@[b as int]),
{
    let wa = weight(graph, deps, a);
    let wb = weight(graph, deps, b);
    wa > wb || (wa == wb && is_before(graph.files[a].path.as_str(), graph.files[b].path.as_str(), false))
}

/// When the tour is short: the `count` heaviest files that are not stops
/// yet and not empty (lines times one more than their importers; ties by
/// path), each with how many files import it.
pub fn fallback_stops(graph: &Graph, deps: &Adjacency, already: &[FileId], count: usize) -> (r: Vec<TourStop>)
    ensures
        r@.len() == fallback_choice(graph.files@, deps.pred(), already@, count as nat).len(),
        forall|i: int| 0 <= i < r@.len() ==> #[trigger] fallback_stop_ok(r@[i],
            fallback_choice(graph.files@, deps.pred(), already@, count as nat)[i], deps.pred()),
{
    let ghost files = graph.files@;
    let ghost pred = deps.pred();
    let ghost keep = |f: FileNode| !already@.contains(f.id) && f.loc > 0;
    let mut idx: Vec<usize> = Vec::new();
    let mut i: usize = 0;
    while i < graph.files.len()
        invariant
            i <= files.len(),
            files == graph.files@,
            keep == (|f: FileNode| !already@.contains(f.id) && f.loc > 0),
            files_at(files, idx@) == files.take(i as int).filter(keep),
            forall|k: int| 0 <= k < idx@.len() ==> (#[trigger] idx@[k]) < files.len(),
        decreases files.len() - i,
    {
        proof {
            files.take(i as int).lemma_filter_push(files[i as int], keep);
        }
        assert(files.take(i + 1) =~= files.take(i as int).push(files[i as int]));
        let f = &graph.files[i];
        if !holds_id(already, f.id) && f.loc > 0 {
            let ghost before = files_at(files, idx@);
            idx.push(i);
            assert(files_at(files, idx@) =~= before.push(files[i as int]));
        } else {
            assert(!keep(files[i as int]));
        }
        i += 1;
    }
    assert(files.take(i as int) =~= files);
    let ghost raw = files_at(files, idx@);
    let ghost rawi = idx@;
    let ghost before = fallback_before(pred);
    let total = idx.len();
    let mut rest = idx;
    let mut sorted: Vec<usize> = Vec::new();
    let mut taken: usize = 0;
    while rest.len() > 0
        invariant
            files == graph.files@,
            pred == deps.pred(),
            total == rawi.len(),
            raw == files_at(files, rawi),
            taken + rest@.len() == rawi.len(),
            rest@ == rawi.skip(taken as int),
            before == fallback_before(pred),
            files_at(files, sorted@) == stable_sorted(raw.take(taken as int), before),
            forall|k: int| 0 <= k < rawi.len() ==> (#[trigger] rawi[k]) < files.len(),
            forall|k: int| 0 <= k < sorted@.len() ==> (#[trigger] sorted@[k]) < files.len(),
        decreases rest@.len(),
    {
        let ghost old_rest = rest@;
        let x = rest.remove(0);
        assert(rest@ =~= old_rest.skip(1));
        assert(rawi[taken as int] == x);
        assert(raw.take(taken + 1).drop_last() =~= raw.take(taken as int));
        assert(raw.take(taken + 1).last() == files[x as int]);
        let ghost s = files_at(files, sorted@);
        let mut count_nb: usize = 0;
        let mut k: usize = 0;
        while k < sorted.len()
            invariant
                k <= sorted@.len(),
                s == files_at(files, sorted@),
                files == graph.files@,
                pred == deps.pred(),
                x < files.len(),
                forall|j: int| 0 <= j < sorted@.len() ==> (#[trigger] sorted@[j]) < files.len(),
                before == fallback_before(pred),
                count_nb == count_not_before(s.take(k as int), files[x as int], before),
                count_nb <= k,
            decreases sorted@.len() - k,
        {
            assert(s.take(k + 1).drop_last() == s.take(k as int));
            assert(s.take(k + 1).last() == files[sorted@[k as int] as int]);
            if !fallback_is_before(graph, deps, x, sorted[k]) {
                count_nb += 1;
            }
            k += 1;
        }
        assert(s.take(k as int) == s);
        let ghost old_sorted = sorted@;
        sorted.insert(count_nb, x);
        assert(files_at(files, sorted@) =~= s.insert(count_nb as int, files[x as int]));
        taken += 1;
        assert(rest@ =~= rawi.skip(taken as int));
    }
    assert(raw.take(taken as int) =~= raw);
    assert(raw == fallback_candidates(files, already@));
    let ghost ordered = files_at(files, sorted@);
    let ghost choice = fallback_choice(files, pred, already@, count as nat);
    let limit: usize = if count < sorted.len() { count } else { sorted.len() };
    assert(choice =~= ordered.take(limit as int));
    let mut stops: Vec<TourStop> = Vec::new();
    let mut t: usize = 0;
    while t < limit
        invariant
            t <= limit,
            limit <= sorted@.len(),
            files == graph.files@,
            pred == deps.pred(),
            ordered == files_at(files, sorted@),
            choice == ordered.take(limit as int),
            forall|k: int| 0 <= k < sorted@.len() ==> (#[trigger] sorted@[k]) < files.len(),
            stops@.len() == t,
            forall|j: int| 0 <= j < t ==> #[trigger] fallback_stop_ok(stops@[j], choice[j], pred),
        decreases limit - t,
    {
        let f = &graph.files[sorted[t]];
        assert(choice[t as int] == files[sorted@[t as int] as int]);
        let fan_in = deps.fan_in(f.id);
        let stop = TourStop {
            file: f.id,
            path: f.path.clone(),
            loc: f.loc,
            reason: fallback_reason(fan_in, f.loc),
            unlocks: fan_in,
        };
        stops.push(stop);
        t += 1;
    }
    stops
}

} // verus!
