//! Go resolution.
use vstd::prelude::*;
use crate::model::{FileId, ReasonView, UnresolvedReason, result_view};
use crate::order::{count_not_before, is_before, lemma_count_not_before_le, stable_sorted, str_before};
use crate::resolve::{index_id, FileIndex};
use crate::resolve::javascript::{
    is_dot_relative, is_dot_relative_exec, join_rel_chars, joined_rel, package_candidate,
    package_candidate_of, parent_dir,
};
use crate::text::{
    before_last, chars_eq, chars_of, ends_with, first_some, is_prefix, is_suffix, last_piece,
    lemma_first_some_all, lemma_first_some_prefix, lemma_first_some_step, split, split_chars,
    starts_with, str_eq, string_of, strip_both, strip_leading, strip_trailing, strip_trailing_chars,
    trim, trim_chars,
};

verus! {

/// The Go modules of the repository: module path and the directory of its
/// `go.mod`, longest path first.
#[derive(Debug, Clone)]
pub struct GoProject {
    pub modules: Vec<(String, String)>,
}

impl Default for GoProject {
    fn default() -> (r: GoProject)
        ensures
            r.modules@.len() == 0,
    {
        GoProject { modules: Vec::new() }
    }
}

/// The module path a line declares, if it is a `module` line.
pub open spec fn module_line(l: Seq<char>) -> Option<Seq<char>> {
    let t = trim(l);
    if is_prefix("module "@, t) {
        Some(trim(t.skip("module "@.len() as int)))
    } else {
        None
    }
}

/// The module path a `go.mod` declares: its first `module` line, quotes
/// dropped; nothing when that is empty.
pub open spec fn go_module(text: Seq<char>) -> Option<Seq<char>> {
    match first_some(split(text, '\n').map_values(|l: Seq<char>| module_line(l))) {
        Some(m) => {
            let n = strip_trailing(strip_leading(m, '"'), '"');
            if n.len() > 0 {
                Some(n)
            } else {
                None
            }
        },
        None => None,
    }
}

/// The module path declared in the text of a `go.mod` file.
pub fn declared_module(text: &str) -> (r: Option<String>)
    ensures
        match r {
            Some(m) => go_module(text@) == Some(m@),
            None => go_module(text@) is None,
        },
{
    let t = chars_of(text);
    let lines = split_chars(t.as_slice(), '\n');
    let key = chars_of("module ");
    let ghost ls = split(text@, '\n');
    let ghost ms = ls.map_values(|l: Seq<char>| module_line(l));
    let mut i: usize = 0;
    while i < lines.len()
        invariant
            i <= lines@.len(),
            lines@.len() == ls.len(),
            forall|k: int| 0 <= k < lines@.len() ==> #[trigger] lines@[k]@ == ls[k],
            key@ == "module "@,
            ls == split(text@, '\n'),
            ms == ls.map_values(|l: Seq<char>| module_line(l)),
            first_some(ms.take(i as int)) is None,
        decreases lines@.len() - i,
    {
        let line = trim_chars(lines[i].as_slice());
        proof {
            lemma_first_some_step(ms, i as int);
        }
        if starts_with(line.as_slice(), key.as_slice()) {
            let rest = trim_chars(vstd::slice::slice_subrange(line.as_slice(), key.len(), line.len()));
            assert(line@.subrange(key@.len() as int, line@.len() as int) =~= line@.skip("module "@.len() as int));
            assert(ms[i as int] == Some(rest@));
            proof {
                lemma_first_some_prefix(ms, i + 1);
            }
            let n = strip_both(rest.as_slice(), '"');
            if n.len() > 0 {
                return Some(string_of(n.as_slice()));
            } else {
                return None;
            }
        }
        i += 1;
    }
    proof {
        lemma_first_some_all(ms);
    }
    None
}

/// A module pair as text.
pub open spec fn pair_view(m: (String, String)) -> (Seq<char>, Seq<char>) {
    (m.0@, m.1@)
}

/// Longer module paths first, equal lengths in byte order.
pub open spec fn module_before(a: (Seq<char>, Seq<char>), b: (Seq<char>, Seq<char>)) -> bool {
    str_before(a.0, b.0, true)
}

/// The modules the read `go.mod` files declare, with their directories.
pub open spec fn declared_modules(files: Seq<(String, String)>) -> Seq<(Seq<char>, Seq<char>)>
    decreases files.len(),
{
    if files.len() == 0 {
        Seq::empty()
    } else {
        let prev = declared_modules(files.drop_last());
        let f = files.last();
        if last_piece(f.0@, '/') == "go.mod"@ {
            match go_module(f.1@) {
                Some(m) => prev.push((m, before_last(f.0@, '/'))),
                None => prev,
            }
        } else {
            prev
        }
    }
}

/// Builds the module list from `go.mod` files given as (path, text) pairs:
/// the declared modules, longest path first.
pub fn build_project(go_mods: &[(String, String)]) -> (p: GoProject)
    ensures
        p.modules@.map_values(|m: (String, String)| pair_view(m)) == stable_sorted(
            declared_modules(go_mods@),
            |a: (Seq<char>, Seq<char>), b: (Seq<char>, Seq<char>)| module_before(a, b),
        ),
{
    let ghost before = |a: (Seq<char>, Seq<char>), b: (Seq<char>, Seq<char>)| module_before(a, b);
    let ghost found: Seq<(Seq<char>, Seq<char>)> = Seq::empty();
    let mut modules: Vec<(String, String)> = Vec::new();
    let mut i: usize = 0;
    while i < go_mods.len()
        invariant
            i <= go_mods@.len(),
            found == declared_modules(go_mods@.take(i as int)),
            before == |a: (Seq<char>, Seq<char>), b: (Seq<char>, Seq<char>)| module_before(a, b),
            modules@.map_values(|m: (String, String)| pair_view(m)) == stable_sorted(found, before),
        decreases go_mods@.len() - i,
    {
        assert(go_mods@.take(i + 1).drop_last() == go_mods@.take(i as int));
        let rel = chars_of(go_mods[i].0.as_str());
        let name = crate::resolve::python::last_piece_of(rel.as_slice());
        if str_eq(string_of(name.as_slice()).as_str(), "go.mod") {
            if let Some(m) = declared_module(go_mods[i].1.as_str()) {
                let dir = string_of(parent_dir(rel.as_slice()).as_slice());
                let ghost x = (m@, dir@);
                let ghost sorted = modules@.map_values(|m: (String, String)| pair_view(m));
                let mut count: usize = 0;
                let mut k: usize = 0;
                while k < modules.len()
                    invariant
                        k <= modules@.len(),
                        sorted == modules@.map_values(|m: (String, String)| pair_view(m)),
                        before == |a: (Seq<char>, Seq<char>), b: (Seq<char>, Seq<char>)| module_before(a, b),
                        x == (m@, dir@),
                        count == count_not_before(sorted.take(k as int), x, before),
                        count <= k,
                    decreases modules@.len() - k,
                {
                    assert(sorted.take(k + 1).drop_last() == sorted.take(k as int));
                    if !is_before(m.as_str(), modules[k].0.as_str(), true) {
                        count += 1;
                    }
                    k += 1;
                }
                assert(sorted.take(k as int) == sorted);
                modules.insert(count, (m, dir));
                proof {
                    assert(found.push(x).drop_last() == found);
                    assert(modules@.map_values(|m: (String, String)| pair_view(m)) =~= sorted.insert(count as int, x));
                }
                proof {
                    found = found.push(x);
                }
            }
        }
        assert(found == declared_modules(go_mods@.take(i + 1)));
        i += 1;
    }
    assert(go_mods@.take(i as int) == go_mods@);
    GoProject { modules }
}

/// A Go source file.
pub open spec fn is_go_file(p: Seq<char>) -> bool {
    is_suffix(".go"@, p)
}

/// A Go test file.
pub open spec fn is_test_file(p: Seq<char>) -> bool {
    is_suffix("_test.go"@, p)
}

/// A Go file directly in `dir` (trailing slashes of `dir` ignored).
pub open spec fn in_package(p: Seq<char>, dir: Seq<char>) -> bool {
    is_go_file(p) && before_last(p, '/') == strip_trailing(dir, '/')
}

/// `p` makes a better target than `cur`: not a test where `cur` is one, or
/// earlier in byte order among files of the same kind.
pub open spec fn better_target(p: Seq<char>, cur: Seq<char>) -> bool {
    (is_test_file(cur) && !is_test_file(p)) || (is_test_file(cur) == is_test_file(p) && str_before(p, cur, false))
}

/// The file that stands for package `dir`: its best file, the first of equals.
pub open spec fn package_pick(paths: Seq<Seq<char>>, dir: Seq<char>) -> Option<int>
    decreases paths.len(),
{
    if paths.len() == 0 {
        None
    } else {
        let prev = package_pick(paths.drop_last(), dir);
        let p = paths.last();
        if in_package(p, dir) && (prev is None || better_target(p, paths[prev.unwrap()])) {
            Some(paths.len() - 1)
        } else {
            prev
        }
    }
}

pub proof fn lemma_package_pick_range(paths: Seq<Seq<char>>, dir: Seq<char>)
    ensures
        package_pick(paths, dir) matches Some(i) ==> 0 <= i < paths.len(),
    decreases paths.len(),
{
    if paths.len() > 0 {
        lemma_package_pick_range(paths.drop_last(), dir);
    }
}

/// The file picked for a package directory is a `.go` file lying directly
/// in that directory: the text of its path before the last `/` is the
/// directory with its trailing slashes dropped. A file in a subdirectory is
/// never picked.
pub proof fn lemma_package_pick_in_dir(paths: Seq<Seq<char>>, dir: Seq<char>)
    ensures
        package_pick(paths, dir) matches Some(i) ==> 0 <= i < paths.len()
            && is_suffix(".go"@, paths[i])
            && before_last(paths[i], '/') == strip_trailing(dir, '/'),
    decreases paths.len(),
{
    if paths.len() > 0 {
        lemma_package_pick_in_dir(paths.drop_last(), dir);
        if let Some(i) = package_pick(paths.drop_last(), dir) {
            assert(paths.drop_last()[i] == paths[i]);
        }
    }
}

/// Whether `p` is a `.go` file directly in directory `dir` (trailing
/// slashes ignored).
pub open spec fn directly_in(p: Seq<char>, dir: Seq<char>) -> bool {
    is_suffix(".go"@, p) && before_last(p, '/') == strip_trailing(dir, '/')
}

/// A package directory with a `.go` file directly in it always gets a file,
/// and the one it gets is the best of them: a test file only where every
/// file of the package is a test, and otherwise none of the same kind comes
/// before it in byte order.
pub proof fn lemma_package_pick_best(paths: Seq<Seq<char>>, dir: Seq<char>)
    ensures
        (exists|j: int| 0 <= j < paths.len() && #[trigger] directly_in(paths[j], dir)) ==> package_pick(paths, dir) is Some,
        package_pick(paths, dir) matches Some(i) ==> forall|j: int| 0 <= j < paths.len() && #[trigger] directly_in(paths[j], dir) ==> {
            &&& is_suffix("_test.go"@, paths[i]) ==> is_suffix("_test.go"@, paths[j])
            &&& is_suffix("_test.go"@, paths[i]) == is_suffix("_test.go"@, paths[j]) ==> !str_before(paths[j], paths[i], false)
        },
    decreases paths.len(),
{
    lemma_package_pick_in_dir(paths, dir);
    if paths.len() > 0 {
        let d = paths.drop_last();
        lemma_package_pick_best(d, dir);
        lemma_package_pick_range(d, dir);
        let p = paths.last();
        let n = paths.len() - 1;
        assert(paths[n] == p);
        assert forall|j: int| 0 <= j < n implies paths[j] == d[j] by {}
        if exists|j: int| 0 <= j < paths.len() && #[trigger] directly_in(paths[j], dir) {
            let j = choose|j: int| 0 <= j < paths.len() && #[trigger] directly_in(paths[j], dir);
            if j < n {
                assert(directly_in(d[j], dir));
            }
        }
        if let Some(i) = package_pick(paths, dir) {
            assert forall|j: int| 0 <= j < paths.len() && #[trigger] directly_in(paths[j], dir) implies {
                &&& is_suffix("_test.go"@, paths[i]) ==> is_suffix("_test.go"@, paths[j])
                &&& is_suffix("_test.go"@, paths[i]) == is_suffix("_test.go"@, paths[j]) ==> !str_before(paths[j], paths[i], false)
            } by {
                let prev = package_pick(d, dir);
                if j == i {
                    crate::order::lemma_before_irreflexive(paths[j], false);
                } else if i == n {
                    // the last file was picked
                    assert(j < n);
                    assert(directly_in(d[j], dir));
                    let pi = prev.unwrap();
                    assert(paths[pi] == d[pi]);
                    if is_suffix("_test.go"@, paths[i]) == is_suffix("_test.go"@, paths[j])
                        && str_before(paths[j], paths[i], false) {
                        if is_suffix("_test.go"@, d[pi]) == is_suffix("_test.go"@, d[j]) {
                            crate::order::lemma_before_transitive(paths[j], paths[i], d[pi], false);
                        }
                    }
                } else {
                    assert(prev == Some(i));
                    assert(paths[i] == d[i]);
                    if j < n {
                        assert(directly_in(d[j], dir));
                    } else {
                        assert(j == n);
                        if is_suffix("_test.go"@, paths[i]) == is_suffix("_test.go"@, paths[j])
                            && str_before(paths[j], paths[i], false) {
                            assert(better_target(p, d[i]));
                        }
                    }
                }
            }
        }
    }
}

/// Where a Go import resolves to a file, that file is a `.go` file directly
/// in the package directory the import names: for a relative import, the
/// directory it names beside the importing file; otherwise the directory a
/// module of the repository maps it to. Trailing slashes of the directory
/// are ignored; a file of a subpackage is never the target.
pub proof fn lemma_go_target_in_package(paths: Seq<Seq<char>>, from: Seq<char>, s: Seq<char>, mods: Seq<(String, String)>)
    requires
        paths.len() <= u32::MAX,
    ensures
        go_outcome(paths, from, s, mods) matches Ok(id) ==> {
            &&& id.0 < paths.len()
            &&& is_suffix(".go"@, paths[id.0 as int])
            &&& is_dot_relative(s) ==> before_last(paths[id.0 as int], '/')
                == strip_trailing(joined_rel(before_last(from, '/'), s), '/')
            &&& !is_dot_relative(s) ==> exists|k: int| 0 <= k < mods.len()
                && (#[trigger] package_candidate(mods[k], s)) is Some
                && before_last(paths[id.0 as int], '/') == strip_trailing(package_candidate(mods[k], s).unwrap(), '/')
        },
{
    if s.len() > 0 {
        if is_dot_relative(s) {
            lemma_package_pick_in_dir(paths, joined_rel(before_last(from, '/'), s));
        } else {
            let cs = mods.map_values(|m: (String, String)| package_candidate(m, s));
            crate::text::lemma_first_some_member(cs);
            if let Some(c) = first_some(cs) {
                lemma_package_pick_in_dir(paths, c);
                let k = choose|k: int| 0 <= k < cs.len() && cs[k] == first_some(cs);
                assert(cs[k] == package_candidate(mods[k], s));
            }
        }
    }
}

/// The file a Go package directory resolves to.
fn package_file(dir: &[char], index: &FileIndex) -> (r: Option<FileId>)
    requires
        index.wf(),
    ensures
        r == match package_pick(index.path_texts(), dir@) {
            Some(i) => Some(FileId(i as u32)),
            None => None,
        },
{
    let want = strip_trailing_chars(dir, '/');
    let go = chars_of(".go");
    let test = chars_of("_test.go");
    let ghost paths = index.path_texts();
    proof {
        index.lemma_ids_fit();
    }
    let n = index.len();
    let mut best: Option<usize> = None;
    let mut best_path: Vec<char> = Vec::new();
    let mut i: usize = 0;
    while i < n
        invariant
            index.wf(),
            paths == index.path_texts(),
            n == paths.len(),
            n <= u32::MAX,
            i <= n,
            want@ == strip_trailing(dir@, '/'),
            go@ == ".go"@,
            test@ == "_test.go"@,
            best == match package_pick(paths.take(i as int), dir@) {
                Some(k) => Some(k as usize),
                None => None::<usize>,
            },
            package_pick(paths.take(i as int), dir@) matches Some(k) ==> 0 <= k < i && best_path@ == paths[k],
        decreases n - i,
    {
        assert(paths.take(i + 1).drop_last() == paths.take(i as int));
        let p = index.path(FileId(i as u32)).unwrap();
        let pc = chars_of(p);
        assert(pc@ == paths[i as int]);
        assert(paths.take(i + 1).last() == paths[i as int]);
        proof {
            lemma_package_pick_range(paths.take(i as int), dir@);
            if let Some(k) = package_pick(paths.take(i as int), dir@) {
                assert(paths.take(i + 1)[k] == paths[k]);
            }
        }
        if ends_with(pc.as_slice(), go.as_slice()) {
            let parent = parent_dir(pc.as_slice());
            if chars_eq(parent.as_slice(), want.as_slice()) {
                let is_test = ends_with(pc.as_slice(), test.as_slice());
                let better = match best {
                    None => true,
                    Some(_) => {
                        let cur_test = ends_with(best_path.as_slice(), test.as_slice());
                        (cur_test && !is_test) || (cur_test == is_test && is_before(p, string_of(best_path.as_slice()).as_str(), false))
                    },
                };
                if better {
                    best = Some(i);
                    best_path = pc;
                }
            }
        }
        i += 1;
    }
    assert(paths.take(i as int) == paths);
    match best {
        Some(k) => Some(FileId(k as u32)),
        None => None,
    }
}

/// How a Go import resolves: a relative one names a package directory next
/// to the importing file; one under a module of the repository names a package
/// inside it (the first, longest, module decides); anything else is outside.
pub open spec fn go_outcome(paths: Seq<Seq<char>>, from: Seq<char>, s: Seq<char>, mods: Seq<(String, String)>) -> Result<FileId, ReasonView> {
    if s.len() == 0 {
        Err(ReasonView::NoSuchFile(s))
    } else if is_dot_relative(s) {
        match package_pick(paths, joined_rel(before_last(from, '/'), s)) {
            Some(i) => Ok(FileId(i as u32)),
            None => Err(ReasonView::NoSuchFile(s)),
        }
    } else {
        match first_some(mods.map_values(|m: (String, String)| package_candidate(m, s))) {
            Some(c) => match package_pick(paths, c) {
                Some(i) => Ok(FileId(i as u32)),
                None => Err(ReasonView::NoSuchFile(s)),
            },
            None => Err(ReasonView::External(s)),
        }
    }
}

/// Resolves a Go import path written in `from_path`.
pub fn resolve_specifier(
    from_path: &str,
    specifier: &str,
    index: &FileIndex,
    project: &GoProject,
) -> (r: Result<FileId, UnresolvedReason>)
    requires
        index.wf(),
    ensures
        result_view(r) == go_outcome(index.path_texts(), from_path@, specifier@, project.modules@),
        r matches Ok(id) ==> id.0 < index.path_texts().len() && is_suffix(".go"@, index.path_texts()[id.0 as int]),
        is_dot_relative(specifier@) ==> (r matches Ok(id) ==> before_last(index.path_texts()[id.0 as int], '/')
            == strip_trailing(joined_rel(before_last(from_path@, '/'), specifier@), '/')),
{
    proof {
        index.lemma_ids_fit();
        lemma_go_target_in_package(index.path_texts(), from_path@, specifier@, project.modules@);
    }
    let s = chars_of(specifier);
    if s.len() == 0 {
        return Err(UnresolvedReason::NoSuchFile(string_of(s.as_slice())));
    }
    if is_dot_relative_exec(s.as_slice()) {
        let from = chars_of(from_path);
        let dir = join_rel_chars(parent_dir(from.as_slice()).as_slice(), s.as_slice());
        return match package_file(dir.as_slice(), index) {
            Some(id) => Ok(id),
            None => Err(UnresolvedReason::NoSuchFile(string_of(s.as_slice()))),
        };
    }
    let ghost cs = project.modules@.map_values(|m: (String, String)| package_candidate(m, s@));
    let mut i: usize = 0;
    while i < project.modules.len()
        invariant
            index.wf(),
            i <= project.modules@.len(),
            s@ == specifier@,
            s@.len() > 0,
            !is_dot_relative(s@),
            cs == project.modules@.map_values(|m: (String, String)| package_candidate(m, s@)),
            first_some(cs.take(i as int)) is None,
        decreases project.modules@.len() - i,
    {
        let c = package_candidate_of(&project.modules[i], s.as_slice());
        proof {
            lemma_first_some_step(cs, i as int);
        }
        if let Some(cand) = c {
            proof {
                lemma_first_some_prefix(cs, i + 1);
            }
            proof {
                index.lemma_ids_fit();
                lemma_go_target_in_package(index.path_texts(), from_path@, specifier@, project.modules@);
            }
            return match package_file(cand.as_slice(), index) {
                Some(id) => Ok(id),
                None => Err(UnresolvedReason::NoSuchFile(string_of(s.as_slice()))),
            };
        }
        i += 1;
    }
    proof {
        lemma_first_some_all(cs);
    }
    Err(UnresolvedReason::External(string_of(s.as_slice())))
}

/// Per directory, in order of first appearance, how many Go files it holds.
pub open spec fn dir_counts(paths: Seq<Seq<char>>) -> Seq<(Seq<char>, nat)>
    decreases paths.len(),
{
    if paths.len() == 0 {
        Seq::empty()
    } else {
        let prev = dir_counts(paths.drop_last());
        let p = paths.last();
        if is_go_file(p) {
            let d = before_last(p, '/');
            match first_some(Seq::new(prev.len(), |k: int| if prev[k].0 == d { Some(k) } else { None })) {
                Some(k) => prev.update(k, (d, prev[k].1 + 1)),
                None => prev.push((d, 1nat)),
            }
        } else {
            prev
        }
    }
}

proof fn lemma_dir_counts_bounded(paths: Seq<Seq<char>>)
    ensures
        forall|k: int| 0 <= k < dir_counts(paths).len() ==> #[trigger] dir_counts(paths)[k].1 <= paths.len(),
    decreases paths.len(),
{
    if paths.len() > 0 {
        lemma_dir_counts_bounded(paths.drop_last());
        let prev = dir_counts(paths.drop_last());
        let p = paths.last();
        if is_go_file(p) {
            let d = before_last(p, '/');
            let marks = Seq::new(prev.len(), |k: int| if prev[k].0 == d { Some(k) } else { None });
            crate::text::lemma_first_some_member(marks);
        }
    }
}

/// How many Go files each directory holds, directories in order of first
/// appearance.
pub fn package_dirs(index: &FileIndex) -> (r: Vec<(String, usize)>)
    requires
        index.wf(),
    ensures
        r@.map_values(|e: (String, usize)| (e.0@, e.1 as nat)) == dir_counts(index.path_texts()),
{
    let ghost paths = index.path_texts();
    proof {
        index.lemma_ids_fit();
    }
    let go = chars_of(".go");
    let n = index.len();
    let mut out: Vec<(String, usize)> = Vec::new();
    let mut i: usize = 0;
    while i < n
        invariant
            index.wf(),
            paths == index.path_texts(),
            n == paths.len(),
            n <= u32::MAX,
            i <= n,
            go@ == ".go"@,
            out@.map_values(|e: (String, usize)| (e.0@, e.1 as nat)) == dir_counts(paths.take(i as int)),
        decreases n - i,
    {
        let ghost prev = dir_counts(paths.take(i as int));
        assert(paths.take(i + 1).drop_last() == paths.take(i as int));
        assert(paths.take(i + 1).last() == paths[i as int]);
        let p = index.path(FileId(i as u32)).unwrap();
        let pc = chars_of(p);
        if ends_with(pc.as_slice(), go.as_slice()) {
            let d = parent_dir(pc.as_slice());
            let ghost marks = Seq::new(prev.len(), |k: int| if prev[k].0 == d@ { Some(k) } else { None });
            let mut k: usize = 0;
            let mut found: Option<usize> = None;
            while k < out.len() && found.is_none()
                invariant
                    k <= out@.len(),
                    out@.map_values(|e: (String, usize)| (e.0@, e.1 as nat)) == prev,
                    marks == Seq::new(prev.len(), |k: int| if prev[k].0 == d@ { Some(k) } else { None }),
                    found is None ==> first_some(marks.take(k as int)) is None,
                    found matches Some(f) ==> first_some(marks) == Some(f as int) && f < out@.len(),
                decreases out@.len() - k,
            {
                proof {
                    lemma_first_some_step(marks, k as int);
                }
                if str_eq(out[k].0.as_str(), string_of(d.as_slice()).as_str()) {
                    proof {
                        lemma_first_some_prefix(marks, k + 1);
                    }
                    found = Some(k);
                }
                k += 1;
            }
            proof {
                if found is None {
                    lemma_first_some_all(marks);
                }
                lemma_dir_counts_bounded(paths.take(i as int));
                assert(pc@ == paths[i as int]);
                assert(is_go_file(paths[i as int]));
                let t = paths.take(i + 1);
                assert(t.drop_last() == paths.take(i as int));
                assert(t.last() == paths[i as int]);
                assert(d@ == before_last(t.last(), '/'));
                assert(dir_counts(t.drop_last()) == prev);
                assert(is_go_file(t.last()));
                assert(marks =~= Seq::new(prev.len(), |k: int| if prev[k].0 == before_last(t.last(), '/') { Some(k) } else { None }));
            }
            match found {
                Some(f) => {
                    assert(prev[f as int].1 <= i);
                    let c = out[f].1;
                    let name = string_of(d.as_slice());
                    let ghost old_out = out@;
                    out.set(f, (name, c + 1));
                    assert(dir_counts(paths.take(i + 1)) == prev.update(f as int, (d@, prev[f as int].1 + 1)));
                    assert(out@ == old_out.update(f as int, (name, (c + 1) as usize)));
                    assert(out@.map_values(|e: (String, usize)| (e.0@, e.1 as nat)) =~= dir_counts(paths.take(i + 1)));
                },
                None => {
                    assert(dir_counts(paths.take(i + 1)) == prev.push((d@, 1nat)));
                    out.push((string_of(d.as_slice()), 1));
                    assert(out@.map_values(|e: (String, usize)| (e.0@, e.1 as nat)) =~= dir_counts(paths.take(i + 1)));
                },
            }
        }
        i += 1;
    }
    assert(paths.take(i as int) == paths);
    out
}

} // verus!
