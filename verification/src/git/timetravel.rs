//! Snapshots of a repository through its history, and what changed between
//! two of them.
use vstd::prelude::*;
use crate::order::{is_before, insert_sorted, lemma_before_total, lemma_before_transitive, str_before, strictly_sorted};

verus! {

/// One point on the timeline.
#[derive(Debug, Clone, PartialEq, Eq)]
pub struct Snapshot {
    pub commit: String,
    pub time: i64,
    pub label: String,
    pub file_count: usize,
    pub total_loc: u32,
    pub edge_count: usize,
}

/// What changed between two snapshots: files that appeared, files that went,
/// and files whose line count grew or shrank, with the change.
#[derive(Debug, Clone, PartialEq, Eq)]
pub struct SnapshotDiff {
    pub added: Vec<String>,
    pub removed: Vec<String>,
    pub grown: Vec<(String, i64)>,
    pub shrunk: Vec<(String, i64)>,
}

impl Default for SnapshotDiff {
    fn default() -> (r: SnapshotDiff)
        ensures
            r.added@.len() == 0,
            r.removed@.len() == 0,
            r.grown@.len() == 0,
            r.shrunk@.len() == 0,
    {
        SnapshotDiff { added: Vec::new(), removed: Vec::new(), grown: Vec::new(), shrunk: Vec::new() }
    }
}

/// How many timeline steps and how far back a timeline looks by default.
pub struct TimelineOptions {
    pub steps: usize,
    pub window_days: i64,
}

impl Default for TimelineOptions {
    fn default() -> (r: TimelineOptions)
        ensures
            r.steps == 12,
            r.window_days == 365,
    {
        TimelineOptions { steps: 12, window_days: 365 }
    }
}

/// A table of line counts as plain values.
pub open spec fn table_view(t: Seq<(String, u32)>) -> Seq<(Seq<char>, u32)> {
    t.map_values(|e: (String, u32)| (e.0@, e.1))
}

/// No path occurs twice in a table.
pub open spec fn paths_distinct(t: Seq<(Seq<char>, u32)>) -> bool {
    forall|i: int, j: int| 0 <= i < j < t.len() ==> (#[trigger] t[i]).0 != (#[trigger] t[j]).0
}

/// The line count a table gives a path, if it lists it.
pub open spec fn loc_of(t: Seq<(Seq<char>, u32)>, path: Seq<char>) -> Option<u32>
    decreases t.len(),
{
    if t.len() == 0 {
        None
    } else if t.last().0 == path {
        Some(t.last().1)
    } else {
        loc_of(t.drop_last(), path)
    }
}

/// The paths that `after` lists and `before` does not.
pub open spec fn added_paths(before: Seq<(Seq<char>, u32)>, after: Seq<(Seq<char>, u32)>) -> Set<Seq<char>> {
    Set::new(|p: Seq<char>| loc_of(after, p) is Some && loc_of(before, p) is None)
}

/// The paths that `before` lists and `after` does not.
pub open spec fn removed_paths(before: Seq<(Seq<char>, u32)>, after: Seq<(Seq<char>, u32)>) -> Set<Seq<char>> {
    added_paths(after, before)
}

/// The paths listed on both sides whose count rose (`grew`) or fell, each with
/// the change.
pub open spec fn moved_paths(before: Seq<(Seq<char>, u32)>, after: Seq<(Seq<char>, u32)>, grew: bool) -> Set<(Seq<char>, i64)> {
    Set::new(|m: (Seq<char>, i64)| {
        &&& loc_of(after, m.0) is Some
        &&& loc_of(before, m.0) is Some
        &&& m.1 == loc_of(after, m.0)->0 - loc_of(before, m.0)->0
        &&& if grew { m.1 > 0 } else { m.1 < 0 }
    })
}

/// Growth is listed largest first, shrinkage most negative first; ties by
/// path.
pub open spec fn moved_before(a: (Seq<char>, i64), b: (Seq<char>, i64), grew: bool) -> bool {
    if a.1 == b.1 {
        str_before(a.0, b.0, false)
    } else if grew {
        a.1 > b.1
    } else {
        a.1 < b.1
    }
}

/// Each entry comes before every later one.
pub open spec fn moved_sorted(s: Seq<(Seq<char>, i64)>, grew: bool) -> bool {
    forall|i: int, j: int| 0 <= i < j < s.len() ==> #[trigger] moved_before(s[i], s[j], grew)
}

/// A list of moved files as plain values.
pub open spec fn moved_view(v: Seq<(String, i64)>) -> Seq<(Seq<char>, i64)> {
    v.map_values(|e: (String, i64)| (e.0@, e.1))
}

proof fn lemma_moved_total(a: (Seq<char>, i64), b: (Seq<char>, i64), grew: bool)
    requires
        a != b,
    ensures
        moved_before(a, b, grew) || moved_before(b, a, grew),
{
    if a.1 == b.1 {
        lemma_before_total(a.0, b.0, false);
    }
}

proof fn lemma_moved_transitive(a: (Seq<char>, i64), b: (Seq<char>, i64), c: (Seq<char>, i64), grew: bool)
    requires
        moved_before(a, b, grew),
        moved_before(b, c, grew),
    ensures
        moved_before(a, c, grew),
{
    if a.1 == b.1 && b.1 == c.1 {
        lemma_before_transitive(a.0, b.0, c.0, false);
    }
}

fn moved_is_before(a: &(String, i64), b: &(String, i64), grew: bool) -> (r: bool)
    ensures
        r == moved_before((a.0@, a.1), (b.0@, b.1), grew),
{
    if a.1 == b.1 {
        is_before(a.0.as_str(), b.0.as_str(), false)
    } else if grew {
        a.1 > b.1
    } else {
        a.1 < b.1
    }
}

/// Adds an entry to a sorted list of moved files.
fn insert_moved(v: &mut Vec<(String, i64)>, x: (String, i64), grew: bool)
    requires
        moved_sorted(moved_view(old(v)@), grew),
        !moved_view(old(v)@).contains((x.0@, x.1)),
    ensures
        moved_sorted(moved_view(final(v)@), grew),
        moved_view(final(v)@).to_set() == moved_view(old(v)@).to_set().insert((x.0@, x.1)),
{
    let ghost old_s = moved_view(v@);
    let ghost xv = (x.0@, x.1);
    let mut i: usize = 0;
    while i < v.len() && moved_is_before(&v[i], &x, grew)
        invariant
            i <= v@.len(),
            old_s == moved_view(v@),
            moved_sorted(old_s, grew),
            xv == (x.0@, x.1),
            forall|k: int| 0 <= k < i ==> #[trigger] moved_before(old_s[k], xv, grew),
        decreases v@.len() - i,
    {
        i += 1;
    }
    proof {
        if i < old_s.len() {
            assert(old_s[i as int] != xv);
            lemma_moved_total(old_s[i as int], xv, grew);
        }
    }
    v.insert(i, x);
    let ghost new_s = moved_view(v@);
    assert(new_s =~= old_s.insert(i as int, xv));
    assert forall|a: int, b: int| 0 <= a < b < new_s.len() implies #[trigger] moved_before(new_s[a], new_s[b], grew) by {
        if b < i {
            assert(moved_before(old_s[a], old_s[b], grew));
        } else if b == i {
        } else if a == i {
            if b - 1 > i {
                assert(moved_before(old_s[i as int], old_s[b - 1], grew));
                lemma_moved_transitive(xv, old_s[i as int], old_s[b - 1], grew);
            }
        } else if a < i {
            assert(moved_before(old_s[a], old_s[b - 1], grew));
        } else {
            assert(moved_before(old_s[a - 1], old_s[b - 1], grew));
        }
    }
    assert(new_s.to_set() =~= old_s.to_set().insert(xv)) by {
        assert forall|e: (Seq<char>, i64)| new_s.to_set().contains(e) implies old_s.to_set().insert(xv).contains(e) by {
            let k = choose|k: int| 0 <= k < new_s.len() && new_s[k] == e;
            if k < i {
                assert(old_s[k] == e);
            } else if k > i {
                assert(old_s[k - 1] == e);
            }
        }
        assert forall|e: (Seq<char>, i64)| old_s.to_set().insert(xv).contains(e) implies new_s.to_set().contains(e) by {
            if e == xv {
                assert(new_s[i as int] == e);
            } else {
                let k = choose|k: int| 0 <= k < old_s.len() && old_s[k] == e;
                if k < i {
                    assert(new_s[k] == e);
                } else {
                    assert(new_s[k + 1] == e);
                }
            }
        }
    }
}

/// Looks a path up in a table.
fn find_loc(t: &[(String, u32)], path: &str) -> (r: Option<u32>)
    ensures
        r == loc_of(table_view(t@), path@),
{
    let ghost tv = table_view(t@);
    let mut k = t.len();
    assert(tv.take(k as int) =~= tv);
    while k > 0
        invariant
            k <= t@.len(),
            tv == table_view(t@),
            loc_of(tv, path@) == loc_of(tv.take(k as int), path@),
        decreases k,
    {
        assert(tv.take(k as int).drop_last() =~= tv.take(k - 1));
        assert(tv.take(k as int).last() == (t@[k - 1].0@, t@[k - 1].1));
        if crate::text::str_eq(t[k - 1].0.as_str(), path) {
            return Some(t[k - 1].1);
        }
        k -= 1;
    }
    None
}

proof fn lemma_loc_of_member(t: Seq<(Seq<char>, u32)>, p: Seq<char>)
    ensures
        loc_of(t, p) is Some <==> exists|k: int| 0 <= k < t.len() && (#[trigger] t[k]).0 == p,
    decreases t.len(),
{
    if t.len() > 0 {
        lemma_loc_of_member(t.drop_last(), p);
        if loc_of(t.drop_last(), p) is Some {
            let k = choose|k: int| 0 <= k < t.drop_last().len() && (#[trigger] t.drop_last()[k]).0 == p;
            assert(t[k].0 == p);
        }
        if exists|k: int| 0 <= k < t.len() && (#[trigger] t[k]).0 == p {
            let k = choose|k: int| 0 <= k < t.len() && (#[trigger] t[k]).0 == p;
            if k < t.len() - 1 {
                assert(t.drop_last()[k].0 == p);
            }
        }
    }
}

/// Compares two tables of line counts by path: what was added, what was
/// removed (both sorted by path), what grew (largest growth first) and what
/// shrank (largest loss first), ties broken by path. A file whose count did
/// not change appears nowhere.
pub fn diff(before: &[(String, u32)], after: &[(String, u32)]) -> (d: SnapshotDiff)
    requires
        paths_distinct(table_view(before@)),
        paths_distinct(table_view(after@)),
    ensures
        strictly_sorted(d.added@.map_values(|s: String| s@), false),
        d.added@.map_values(|s: String| s@).to_set() == added_paths(table_view(before@), table_view(after@)),
        strictly_sorted(d.removed@.map_values(|s: String| s@), false),
        d.removed@.map_values(|s: String| s@).to_set() == removed_paths(table_view(before@), table_view(after@)),
        moved_sorted(moved_view(d.grown@), true),
        moved_view(d.grown@).to_set() == moved_paths(table_view(before@), table_view(after@), true),
        moved_sorted(moved_view(d.shrunk@), false),
        moved_view(d.shrunk@).to_set() == moved_paths(table_view(before@), table_view(after@), false),
{
    let ghost bv = table_view(before@);
    let ghost av = table_view(after@);
    let mut added: Vec<String> = Vec::new();
    let mut grown: Vec<(String, i64)> = Vec::new();
    let mut shrunk: Vec<(String, i64)> = Vec::new();
    let mut i: usize = 0;
    proof {
        assert(added@.map_values(|s: String| s@) =~= Seq::<Seq<char>>::empty());
        assert(moved_view(grown@) =~= Seq::<(Seq<char>, i64)>::empty());
        assert(moved_view(shrunk@) =~= Seq::<(Seq<char>, i64)>::empty());
        assert(added@.map_values(|s: String| s@).to_set() =~= added_paths(bv, av.take(0)));
        assert(moved_view(grown@).to_set() =~= moved_paths(bv, av.take(0), true));
        assert(moved_view(shrunk@).to_set() =~= moved_paths(bv, av.take(0), false));
    }
    while i < after.len()
        invariant
            i <= av.len(),
            bv == table_view(before@),
            av == table_view(after@),
            paths_distinct(av),
            strictly_sorted(added@.map_values(|s: String| s@), false),
            added@.map_values(|s: String| s@).to_set() == added_paths(bv, av.take(i as int)),
            moved_sorted(moved_view(grown@), true),
            moved_view(grown@).to_set() == moved_paths(bv, av.take(i as int), true),
            moved_sorted(moved_view(shrunk@), false),
            moved_view(shrunk@).to_set() == moved_paths(bv, av.take(i as int), false),
        decreases av.len() - i,
    {
        let ghost prev = av.take(i as int);
        let ghost next = av.take(i + 1);
        let path = &after[i].0;
        let loc = after[i].1;
        proof {
            assert(next.drop_last() =~= prev);
            assert(next.last() == (path@, loc));
            lemma_loc_of_member(prev, path@);
            if loc_of(prev, path@) is Some {
                let k = choose|k: int| 0 <= k < prev.len() && (#[trigger] prev[k]).0 == path@;
                assert(av[k].0 == path@);
                assert(av[i as int].0 == path@);
            }
            assert(loc_of(prev, path@) is None);
            assert forall|p: Seq<char>| p != path@ implies loc_of(next, p) == loc_of(prev, p) by {}
        }
        match find_loc(before, path.as_str()) {
            None => {
                insert_sorted(&mut added, crate::text::owned(path.as_str()), false);
                proof {
                    assert(added@.map_values(|s: String| s@).to_set() =~= added_paths(bv, next));
                    assert(moved_view(grown@).to_set() =~= moved_paths(bv, next, true));
                    assert(moved_view(shrunk@).to_set() =~= moved_paths(bv, next, false));
                }
            },
            Some(old) => {
                let delta: i64 = loc as i64 - old as i64;
                proof {
                    assert(added@.map_values(|s: String| s@).to_set() =~= added_paths(bv, next));
                }
                if delta > 0 {
                    proof {
                        if moved_view(grown@).contains((path@, delta)) {
                            let k = choose|k: int| 0 <= k < moved_view(grown@).len() && moved_view(grown@)[k] == (path@, delta);
                            assert(moved_view(grown@).to_set().contains((path@, delta)));
                        }
                    }
                    insert_moved(&mut grown, (crate::text::owned(path.as_str()), delta), true);
                    proof {
                        assert(moved_view(grown@).to_set() =~= moved_paths(bv, next, true));
                        assert(moved_view(shrunk@).to_set() =~= moved_paths(bv, next, false));
                    }
                } else if delta < 0 {
                    proof {
                        if moved_view(shrunk@).contains((path@, delta)) {
                            assert(moved_view(shrunk@).to_set().contains((path@, delta)));
                        }
                    }
                    insert_moved(&mut shrunk, (crate::text::owned(path.as_str()), delta), false);
                    proof {
                        assert(moved_view(grown@).to_set() =~= moved_paths(bv, next, true));
                        assert(moved_view(shrunk@).to_set() =~= moved_paths(bv, next, false));
                    }
                } else {
                    proof {
                        assert(moved_view(grown@).to_set() =~= moved_paths(bv, next, true));
                        assert(moved_view(shrunk@).to_set() =~= moved_paths(bv, next, false));
                    }
                }
            },
        }
        i += 1;
    }
    assert(av.take(i as int) =~= av);
    let mut removed: Vec<String> = Vec::new();
    let mut j: usize = 0;
    proof {
        assert(removed@.map_values(|s: String| s@) =~= Seq::<Seq<char>>::empty());
        assert(removed@.map_values(|s: String| s@).to_set() =~= added_paths(av, bv.take(0)));
    }
    while j < before.len()
        invariant
            j <= bv.len(),
            bv == table_view(before@),
            av == table_view(after@),
            paths_distinct(bv),
            strictly_sorted(removed@.map_values(|s: String| s@), false),
            removed@.map_values(|s: String| s@).to_set() == added_paths(av, bv.take(j as int)),
        decreases bv.len() - j,
    {
        let ghost prev = bv.take(j as int);
        let ghost next = bv.take(j + 1);
        let path = &before[j].0;
        proof {
            assert(next.drop_last() =~= prev);
            assert(next.last() == (path@, before@[j as int].1));
        }
        match find_loc(after, path.as_str()) {
            None => {
                insert_sorted(&mut removed, crate::text::owned(path.as_str()), false);
            },
            Some(_) => {},
        }
        assert(removed@.map_values(|s: String| s@).to_set() =~= added_paths(av, next));
        j += 1;
    }
    assert(bv.take(j as int) =~= bv);
    SnapshotDiff { added, removed, grown, shrunk }
}


/// The pattern a timestamp is written with on a timeline that spans
/// `span_seconds`: the hour under two days, the day under seventy-five days,
/// the month beyond.
pub open spec fn pattern_for(span_seconds: i64) -> Seq<char> {
    if span_seconds < 2 * 86_400 {
        seq!['%', 'H', ':', '%', 'M']
    } else if span_seconds < 75 * 86_400 {
        seq!['%', 'm', '-', '%', 'd']
    } else {
        seq!['%', 'Y', '-', '%', 'm']
    }
}

/// A timestamp written in UTC by a `strftime` pattern, or nothing where
/// the timestamp is out of the representable range.
pub uninterp spec fn utc_format(unix_seconds: i64, pattern: Seq<char>) -> Option<Seq<char>>;

/// `chrono::Utc.timestamp_opt(..).single()` then `format(..)`: the written
/// timestamp is named `utc_format`; the call is made only with the three
/// patterns the library uses, which chrono always accepts.
#[verifier::external_body]
fn format_utc(unix_seconds: i64, pattern: &str) -> (r: Option<String>)
    requires
        pattern@ == pattern_for(0) || pattern@ == pattern_for(172_800i64) || pattern@ == pattern_for(6_480_000i64),
    ensures
        match r {
            Some(s) => utc_format(unix_seconds, pattern@) == Some(s@),
            None => utc_format(unix_seconds, pattern@) is None,
        },
{
    match chrono::TimeZone::timestamp_opt(&chrono::Utc, unix_seconds, 0).single() {
        Some(moment) => Some(moment.format(pattern).to_string()),
        None => None,
    }
}

/// The `strftime` pattern for a timeline spanning `span_seconds`.
pub fn label_pattern(span_seconds: i64) -> (r: &'static str)
    ensures
        r@ == pattern_for(span_seconds),
{
    if span_seconds < 2 * 86_400 {
        let p = "%H:%M";
        proof { reveal_strlit("%H:%M"); }
        p
    } else if span_seconds < 75 * 86_400 {
        let p = "%m-%d";
        proof { reveal_strlit("%m-%d"); }
        p
    } else {
        let p = "%Y-%m";
        proof { reveal_strlit("%Y-%m"); }
        p
    }
}

/// The label of a point on a timeline that spans `span_seconds`: the UTC time
/// written by the span's pattern, or `?` where it cannot be written.
pub fn label_for(unix_seconds: i64, span_seconds: i64) -> (r: String)
    ensures
        r@ == match utc_format(unix_seconds, pattern_for(span_seconds)) {
            Some(s) => s,
            None => seq!['?'],
        },
{
    let pattern = label_pattern(span_seconds);
    label_or_unknown(format_utc(unix_seconds, pattern))
}

/// A written timestamp, or `?` for one that could not be written.
pub fn label_or_unknown(written: Option<String>) -> (r: String)
    ensures
        r@ == match written {
            Some(s) => s@,
            None => seq!['?'],
        },
{
    match written {
        Some(s) => s,
        None => {
            let q = "?";
            proof { reveal_strlit("?"); }
            crate::text::owned(q)
        },
    }
}

/// A commit id as a snapshot shows it: its first seven characters.
pub open spec fn short_commit(id: Seq<char>) -> Seq<char> {
    if id.len() <= 7 { id } else { id.take(7) }
}

/// The lines of code of the files read at a commit, summed.
pub open spec fn loc_sum(files: Seq<(u32, usize)>) -> int
    decreases files.len(),
{
    if files.len() == 0 { 0 } else { loc_sum(files.drop_last()) + files.last().0 }
}

/// The imports of the files read at a commit, summed.
pub open spec fn import_sum(files: Seq<(u32, usize)>) -> int
    decreases files.len(),
{
    if files.len() == 0 { 0 } else { import_sum(files.drop_last()) + files.last().1 }
}

proof fn lemma_sums_grow(files: Seq<(u32, usize)>, k: int)
    requires
        0 <= k <= files.len(),
    ensures
        loc_sum(files.take(k)) <= loc_sum(files),
        import_sum(files.take(k)) <= import_sum(files),
    decreases files.len() - k,
{
    if k < files.len() {
        lemma_sums_grow(files, k + 1);
        assert(files.take(k + 1).drop_last() =~= files.take(k));
    } else {
        assert(files.take(k) =~= files);
    }
}

/// The time a timeline spans: from its first picked commit to its last, and
/// nothing when it is empty or runs backwards.
pub fn timeline_span(picked: &[(String, i64)]) -> (r: i64)
    requires
        picked@.len() > 0 ==> i64::MIN <= picked@.last().1 - picked@[0].1 <= i64::MAX,
    ensures
        r == if picked@.len() == 0 {
            0
        } else if picked@.last().1 - picked@[0].1 < 0 {
            0
        } else {
            picked@.last().1 - picked@[0].1
        },
{
    if picked.len() == 0 {
        return 0;
    }
    let d = picked[picked.len() - 1].1 - picked[0].1;
    if d < 0 { 0 } else { d }
}

/// The snapshot of one picked commit, from the line count and import count
/// of each file read there: its short id, its time, its label on a timeline
/// of `span` seconds, how many files, and the two totals.
pub fn snapshot_of(commit: &str, time: i64, span: i64, files: &[(u32, usize)]) -> (s: Snapshot)
    requires
        loc_sum(files@) <= u32::MAX,
        import_sum(files@) <= usize::MAX,
    ensures
        s.commit@ == short_commit(commit@),
        s.time == time,
        s.label@ == match utc_format(time, pattern_for(span)) {
            Some(t) => t,
            None => seq!['?'],
        },
        s.file_count == files@.len(),
        s.total_loc == loc_sum(files@),
        s.edge_count == import_sum(files@),
{
    let c = crate::text::chars_of(commit);
    let mut short: Vec<char> = Vec::new();
    let mut k: usize = 0;
    while k < c.len() && k < 7
        invariant
            c@ == commit@,
            k <= c@.len(),
            k <= 7,
            short@ == c@.take(k as int),
        decreases c@.len() - k,
    {
        short.push(c[k]);
        k += 1;
        assert(short@ =~= c@.take(k as int));
    }
    assert(short@ =~= short_commit(commit@));
    let mut total_loc: u32 = 0;
    let mut edges: usize = 0;
    let mut i: usize = 0;
    while i < files.len()
        invariant
            i <= files@.len(),
            total_loc == loc_sum(files@.take(i as int)),
            edges == import_sum(files@.take(i as int)),
            loc_sum(files@) <= u32::MAX,
            import_sum(files@) <= usize::MAX,
        decreases files@.len() - i,
    {
        proof {
            lemma_sums_grow(files@, i + 1);
            assert(files@.take(i + 1).drop_last() =~= files@.take(i as int));
        }
        total_loc = total_loc + files[i].0;
        edges = edges + files[i].1;
        i += 1;
    }
    assert(files@.take(i as int) =~= files@);
    Snapshot {
        commit: crate::text::string_of(short.as_slice()),
        time,
        label: label_for(time, span),
        file_count: files.len(),
        total_loc,
        edge_count: edges,
    }
}

/// The label of a point on a year-long timeline: its month.
pub fn month_label(unix_seconds: i64) -> (r: String)
    ensures
        r@ == match utc_format(unix_seconds, pattern_for(31_536_000i64)) {
            Some(s) => s,
            None => seq!['?'],
        },
{
    label_for(unix_seconds, 365 * 86_400)
}

} // verus!
