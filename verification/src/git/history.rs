//! What the library reads from a repository's history: how often each file
//! changed, when, and by whom; which files change together; and which files
//! the history makes worth a finding.
use vstd::prelude::*;
use crate::graph::{has_edge, Adjacency};
use crate::model::FileId;
use crate::order::{is_before, str_before};
use crate::text::str_eq;

verus! {

/// One commit: its abbreviated id, its time (seconds since the epoch), its
/// author, and the files it changed.
#[derive(Debug, Clone, PartialEq, Eq)]
pub struct CommitRecord {
    pub id: String,
    pub time: i64,
    pub author: String,
    pub files: Vec<String>,
}

/// What the history says of one file: how many commits touched it, the
/// latest and earliest of their times, how many people wrote them, and who
/// wrote the most of them (ties to the name that sorts first) and how many.
#[derive(Debug, Clone, PartialEq, Eq)]
pub struct FileHistory {
    pub commits: u32,
    pub last_touched: i64,
    pub first_touched: i64,
    pub authors: u32,
    pub top_author: String,
    pub top_author_commits: u32,
}

/// The latest time among the touches.
pub open spec fn last_time(ts: Seq<(i64, String)>) -> i64
    decreases ts.len(),
{
    if ts.len() <= 1 {
        if ts.len() == 0 { 0 } else { ts[0].0 }
    } else {
        let p = last_time(ts.drop_last());
        if ts.last().0 > p { ts.last().0 } else { p }
    }
}

/// The earliest time among the touches, where a time of zero counts as
/// not yet known: the first touch's time, then the least of it and each
/// later time, except that a known time of zero is replaced by the next.
pub open spec fn first_time(ts: Seq<(i64, String)>) -> i64
    decreases ts.len(),
{
    if ts.len() <= 1 {
        if ts.len() == 0 { 0 } else { ts[0].0 }
    } else {
        let p = first_time(ts.drop_last());
        if p == 0 { ts.last().0 } else if ts.last().0 < p { ts.last().0 } else { p }
    }
}

/// The authors of the touches, each once, in order of first appearance.
pub open spec fn distinct_authors(ts: Seq<(i64, String)>) -> Seq<Seq<char>>
    decreases ts.len(),
{
    if ts.len() == 0 {
        Seq::empty()
    } else {
        let p = distinct_authors(ts.drop_last());
        if p.contains(ts.last().1@) { p } else { p.push(ts.last().1@) }
    }
}

/// How many touches `a` wrote.
pub open spec fn touches_by(ts: Seq<(i64, String)>, a: Seq<char>) -> nat
    decreases ts.len(),
{
    if ts.len() == 0 {
        0
    } else {
        touches_by(ts.drop_last(), a) + if ts.last().1@ == a { 1nat } else { 0nat }
    }
}

/// Of `authors`, the one with the most touches; among equals, the name that
/// sorts first.
pub open spec fn top_of(ts: Seq<(i64, String)>, authors: Seq<Seq<char>>) -> Seq<char>
    decreases authors.len(),
{
    if authors.len() <= 1 {
        if authors.len() == 0 { Seq::empty() } else { authors[0] }
    } else {
        let b = top_of(ts, authors.drop_last());
        let x = authors.last();
        if touches_by(ts, x) > touches_by(ts, b) || (touches_by(ts, x) == touches_by(ts, b) && str_before(x, b, false)) {
            x
        } else {
            b
        }
    }
}

/// The history of a file touched by `ts` (time and author of each commit
/// that changed it, in the order read).
pub open spec fn history_of(ts: Seq<(i64, String)>, h: FileHistory) -> bool {
    &&& h.commits == ts.len()
    &&& h.last_touched == last_time(ts)
    &&& h.first_touched == first_time(ts)
    &&& h.authors == distinct_authors(ts).len()
    &&& h.top_author@ == top_of(ts, distinct_authors(ts))
    &&& h.top_author_commits == touches_by(ts, top_of(ts, distinct_authors(ts)))
}

proof fn lemma_distinct_len(ts: Seq<(i64, String)>)
    ensures
        distinct_authors(ts).len() <= ts.len(),
    decreases ts.len(),
{
    if ts.len() > 0 {
        lemma_distinct_len(ts.drop_last());
    }
}

proof fn lemma_touches_le(ts: Seq<(i64, String)>, a: Seq<char>)
    ensures
        touches_by(ts, a) <= ts.len(),
    decreases ts.len(),
{
    if ts.len() > 0 {
        lemma_touches_le(ts.drop_last(), a);
    }
}

fn count_by(ts: &[(i64, String)], a: &str) -> (r: u32)
    requires
        ts@.len() <= u32::MAX,
    ensures
        r == touches_by(ts@, a@),
{
    let mut n: u32 = 0;
    let mut i: usize = 0;
    while i < ts.len()
        invariant
            i <= ts@.len(),
            ts@.len() <= u32::MAX,
            n == touches_by(ts@.take(i as int), a@),
        decreases ts@.len() - i,
    {
        assert(ts@.take(i + 1).drop_last() =~= ts@.take(i as int));
        proof { lemma_touches_le(ts@.take(i as int), a@); }
        if str_eq(ts[i].1.as_str(), a) {
            n += 1;
        }
        i += 1;
    }
    assert(ts@.take(i as int) =~= ts@);
    n
}

fn holds_name(v: &Vec<String>, a: &str) -> (r: bool)
    ensures
        r == v@.map_values(|s: String| s@).contains(a@),
{
    let mut i: usize = 0;
    while i < v.len()
        invariant
            i <= v@.len(),
            forall|k: int| 0 <= k < i ==> v@[k]@ != a@,
        decreases v@.len() - i,
    {
        if str_eq(v[i].as_str(), a) {
            assert(v@.map_values(|s: String| s@)[i as int] == a@);
            return true;
        }
        i += 1;
    }
    false
}

/// What the history says of a file from its touches: the time and author
/// of each commit that changed it, in the order read.
pub fn summarise_file(ts: &[(i64, String)]) -> (h: FileHistory)
    requires
        ts@.len() <= u32::MAX,
    ensures
        history_of(ts@, h),
{
    let mut last: i64 = 0;
    let mut first: i64 = 0;
    let mut authors: Vec<String> = Vec::new();
    let mut i: usize = 0;
    while i < ts.len()
        invariant
            i <= ts@.len(),
            ts@.len() <= u32::MAX,
            last == last_time(ts@.take(i as int)),
            first == first_time(ts@.take(i as int)),
            authors@.map_values(|s: String| s@) == distinct_authors(ts@.take(i as int)),
        decreases ts@.len() - i,
    {
        let ghost t = ts@.take(i + 1);
        assert(t.drop_last() =~= ts@.take(i as int));
        assert(t.last() == ts@[i as int]);
        let (time, _) = &ts[i];
        if i == 0 {
            last = *time;
            first = *time;
        } else {
            if *time > last {
                last = *time;
            }
            if first == 0 {
                first = *time;
            } else if *time < first {
                first = *time;
            }
        }
        if !holds_name(&authors, ts[i].1.as_str()) {
            let ghost before = authors@.map_values(|s: String| s@);
            authors.push(ts[i].1.clone());
            assert(authors@.map_values(|s: String| s@) =~= before.push(ts@[i as int].1@));
        }
        i += 1;
    }
    assert(ts@.take(i as int) =~= ts@);
    let ghost ds = authors@.map_values(|s: String| s@);
    proof { lemma_distinct_len(ts@); }
    let mut top = String::new();
    let mut top_count: u32 = 0;
    let mut k: usize = 0;
    while k < authors.len()
        invariant
            k <= authors@.len(),
            ts@.len() <= u32::MAX,
            ds == authors@.map_values(|s: String| s@),
            k > 0 ==> top@ == top_of(ts@, ds.take(k as int)),
            k > 0 ==> top_count == touches_by(ts@, top@),
            k == 0 ==> top@ == Seq::<char>::empty() && top_count == 0,
        decreases authors@.len() - k,
    {
        assert(ds.take(k + 1).drop_last() =~= ds.take(k as int));
        assert(ds.take(k + 1).last() == authors@[k as int]@);
        let c = count_by(ts, authors[k].as_str());
        if k == 0 {
            top = authors[k].clone();
            top_count = c;
            assert(ds.take(1).len() == 1);
        } else if c > top_count || (c == top_count && is_before(authors[k].as_str(), top.as_str(), false)) {
            top = authors[k].clone();
            top_count = c;
        }
        k += 1;
    }
    assert(ds.take(k as int) =~= ds);
    proof {
        if k == 0 {
            assert(ds.len() == 0);
        }
    }
    FileHistory {
        commits: ts.len() as u32,
        last_touched: last,
        first_touched: first,
        authors: authors.len() as u32,
        top_author: top,
        top_author_commits: top_count,
    }
}

/// Two paths as a pair keyed the same whichever comes first: the one that
/// sorts first, then the other.
pub open spec fn ordered_pair(a: Seq<char>, b: Seq<char>) -> (Seq<char>, Seq<char>) {
    if str_before(a, b, false) { (a, b) } else { (b, a) }
}

/// Every pair of files one commit changed, each pair once per commit: for
/// each file, paired with every file listed before it.
pub open spec fn pairs_of(files: Seq<Seq<char>>) -> Seq<(Seq<char>, Seq<char>)>
    decreases files.len(),
{
    if files.len() == 0 {
        Seq::empty()
    } else {
        let last = files.last();
        pairs_of(files.drop_last()) + files.drop_last().map_values(|a: Seq<char>| ordered_pair(a, last))
    }
}

/// The pairs of files a commit changed together, keyed whichever order they
/// were listed in; none when it changed more than `max_files` files.
pub fn commit_pairs(files: &Vec<String>, max_files: usize) -> (r: Vec<(String, String)>)
    ensures
        r@.map_values(|p: (String, String)| (p.0@, p.1@))
            == if files@.len() > max_files { Seq::empty() } else { pairs_of(files@.map_values(|s: String| s@)) },
{
    let ghost fs = files@.map_values(|s: String| s@);
    let mut out: Vec<(String, String)> = Vec::new();
    if files.len() > max_files {
        assert(out@.map_values(|p: (String, String)| (p.0@, p.1@)) =~= Seq::<(Seq<char>, Seq<char>)>::empty());
        return out;
    }
    let mut j: usize = 0;
    while j < files.len()
        invariant
            j <= files@.len(),
            fs == files@.map_values(|s: String| s@),
            out@.map_values(|p: (String, String)| (p.0@, p.1@)) == pairs_of(fs.take(j as int)),
        decreases files@.len() - j,
    {
        let ghost pre = fs.take(j as int);
        assert(fs.take(j + 1).drop_last() =~= pre);
        assert(fs.take(j + 1).last() == files@[j as int]@);
        let ghost base = out@.map_values(|p: (String, String)| (p.0@, p.1@));
        let mut i: usize = 0;
        while i < j
            invariant
                i <= j,
                j < files@.len(),
                fs == files@.map_values(|s: String| s@),
                pre == fs.take(j as int),
                out@.map_values(|p: (String, String)| (p.0@, p.1@))
                    == base + pre.take(i as int).map_values(|a: Seq<char>| ordered_pair(a, files@[j as int]@)),
            decreases j - i,
        {
            let a = &files[i];
            let b = &files[j];
            let pair = if is_before(a.as_str(), b.as_str(), false) { (a.clone(), b.clone()) } else { (b.clone(), a.clone()) };
            let ghost prev = out@.map_values(|p: (String, String)| (p.0@, p.1@));
            out.push(pair);
            assert(pre[i as int] == files@[i as int]@);
            assert(pre.take(i + 1).map_values(|a: Seq<char>| ordered_pair(a, files@[j as int]@))
                =~= pre.take(i as int).map_values(|a: Seq<char>| ordered_pair(a, files@[j as int]@)).push(ordered_pair(files@[i as int]@, files@[j as int]@)));
            assert(out@.map_values(|p: (String, String)| (p.0@, p.1@)) =~= prev.push(ordered_pair(files@[i as int]@, files@[j as int]@)));
            i += 1;
        }
        assert(pre.take(j as int) =~= pre);
        j += 1;
    }
    assert(fs.take(j as int) =~= fs);
    out
}

/// A file one person wrote, that changed at least five times and that at
/// least five files import, is a risk to the team.
pub fn bus_factor_risk(h: &FileHistory, fan_in: usize) -> (r: bool)
    ensures
        r == (h.authors == 1 && h.commits >= 5 && fan_in >= 5),
{
    h.authors == 1 && h.commits >= 5 && fan_in >= 5
}

/// A file imported by at least three files that changed at least three
/// times is a candidate for an unstable interface.
pub fn unstable_candidate(h: &FileHistory, fan_in: usize) -> (r: bool)
    ensures
        r == (fan_in >= 3 && h.commits >= 3),
{
    fan_in >= 3 && h.commits >= 3
}

/// Two files that change together but neither imports the other.
pub fn unlinked(deps: &Adjacency, a: FileId, b: FileId) -> (r: bool)
    ensures
        r == !(has_edge(deps.succ(), a, b) || has_edge(deps.succ(), b, a)),
{
    let da = deps.dependencies(a);
    let db = deps.dependencies(b);
    let mut linked = false;
    let mut i: usize = 0;
    while i < da.len()
        invariant
            i <= da@.len(),
            a.0 < deps.succ().len() ==> da@ == deps.succ()[a.0 as int],
            a.0 >= deps.succ().len() ==> da@.len() == 0,
            linked == da@.take(i as int).contains(b),
        decreases da@.len() - i,
    {
        assert(da@.take(i + 1) =~= da@.take(i as int).push(da@[i as int]));
        proof { crate::text::lemma_push_to_set(da@.take(i as int), da@[i as int]); }
        if da[i] == b {
            linked = true;
        }
        assert(da@.take(i + 1).contains(b) == (da@.take(i as int).contains(b) || da@[i as int] == b)) by {
            if da@.take(i + 1).contains(b) {
                let q = choose|q: int| 0 <= q < i + 1 && #[trigger] da@.take(i + 1)[q] == b;
                if q < i {
                    assert(da@.take(i as int)[q] == b);
                }
            }
            if da@.take(i as int).contains(b) {
                let q = choose|q: int| 0 <= q < i && #[trigger] da@.take(i as int)[q] == b;
                assert(da@.take(i + 1)[q] == b);
            }
            if da@[i as int] == b {
                assert(da@.take(i + 1)[i as int] == b);
            }
        }
        i += 1;
    }
    assert(da@.take(i as int) =~= da@);
    let mut j: usize = 0;
    let mut back = false;
    while j < db.len()
        invariant
            j <= db@.len(),
            b.0 < deps.succ().len() ==> db@ == deps.succ()[b.0 as int],
            b.0 >= deps.succ().len() ==> db@.len() == 0,
            back == db@.take(j as int).contains(a),
        decreases db@.len() - j,
    {
        assert(db@.take(j + 1) =~= db@.take(j as int).push(db@[j as int]));
        if db[j] == a {
            back = true;
        }
        assert(db@.take(j + 1).contains(a) == (db@.take(j as int).contains(a) || db@[j as int] == a)) by {
            if db@.take(j + 1).contains(a) {
                let q = choose|q: int| 0 <= q < j + 1 && #[trigger] db@.take(j + 1)[q] == a;
                if q < j {
                    assert(db@.take(j as int)[q] == a);
                }
            }
            if db@.take(j as int).contains(a) {
                let q = choose|q: int| 0 <= q < j && #[trigger] db@.take(j as int)[q] == a;
                assert(db@.take(j + 1)[q] == a);
            }
            if db@[j as int] == a {
                assert(db@.take(j + 1)[j as int] == a);
            }
        }
        j += 1;
    }
    assert(db@.take(j as int) =~= db@);
    !(linked || back)
}

} // verus!
