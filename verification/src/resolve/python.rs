//! Python resolution.
use vstd::prelude::*;
use crate::model::{FileId, ReasonView, UnresolvedReason, result_view};
use crate::order::{insert_sorted, strictly_sorted};
use crate::resolve::{index_id, FileIndex};
use crate::resolve::javascript::{join_rel_chars, joined_rel};
use crate::text::{
    before_last, chars_of, concat_chars, first_some, is_prefix, last_piece, lemma_first_some_all,
    lemma_first_some_prefix, lemma_first_some_step, lemma_split_nonempty, split, split_chars,
    starts_with, str_eq, string_of,
};

verus! {

/// Where modules are looked up from (longest first) and which directories are
/// packages.
#[derive(Debug, Clone)]
pub struct PythonProject {
    pub roots: Vec<String>,
    pub packages: Vec<String>,
}

impl Default for PythonProject {
    fn default() -> (r: PythonProject)
        ensures
            r.roots@.len() == 0,
            r.packages@.len() == 0,
    {
        PythonProject { roots: Vec::new(), packages: Vec::new() }
    }
}

/// The file is a package's `__init__.py`.
pub open spec fn is_init(rel: Seq<char>) -> bool {
    last_piece(rel, '/') == "__init__.py"@
}

/// The file lies under top-level directory `marker`.
pub open spec fn under(rel: Seq<char>, marker: Seq<char>) -> bool {
    is_prefix(marker.push('/'), rel)
}

/// The import roots one file shows: the directory above a package, and a
/// top-level `src` or `lib` directory.
pub open spec fn roots_of(f: Seq<char>) -> Set<Seq<char>> {
    (if is_init(f) { set![before_last(before_last(f, '/'), '/')] } else { Set::empty() }).union(
        if under(f, "src"@) { set!["src"@] } else { Set::empty() },
    ).union(if under(f, "lib"@) { set!["lib"@] } else { Set::empty() })
}

/// The import roots of a file list: the repository root and those the files show.
pub open spec fn root_set(files: Seq<Seq<char>>) -> Set<Seq<char>>
    decreases files.len(),
{
    if files.len() == 0 {
        set![Seq::<char>::empty()]
    } else {
        root_set(files.drop_last()).union(roots_of(files.last()))
    }
}

/// The directories that hold an `__init__.py`.
pub open spec fn package_set(files: Seq<Seq<char>>) -> Set<Seq<char>>
    decreases files.len(),
{
    if files.len() == 0 {
        Set::empty()
    } else {
        package_set(files.drop_last()).union(
            if is_init(files.last()) { set![before_last(files.last(), '/')] } else { Set::empty() },
        )
    }
}

fn parent_of(path: &[char]) -> (r: Vec<char>)
    ensures
        r@ == before_last(path@, '/'),
{
    proof {
        crate::text::lemma_last_index_of(path@, '/');
    }
    match crate::text::rfind_char(path, '/') {
        Some(i) => vstd::slice::slice_to_vec(vstd::slice::slice_subrange(path, 0, i)),
        None => Vec::new(),
    }
}

pub(crate) fn last_piece_of(path: &[char]) -> (r: Vec<char>)
    ensures
        r@ == last_piece(path@, '/'),
{
    proof {
        crate::text::lemma_last_index_of(path@, '/');
    }
    match crate::text::rfind_char(path, '/') {
        Some(i) => {
            let n = path.len();
            assert(i < n);
            vstd::slice::slice_to_vec(vstd::slice::slice_subrange(path, i + 1, n))
        },
        None => vstd::slice::slice_to_vec(path),
    }
}

/// Works out the import roots and packages from the list of files.
pub fn build_project(all_files: &[String]) -> (p: PythonProject)
    ensures
        strictly_sorted(p.roots@.map_values(|s: String| s@), true),
        p.roots@.map_values(|s: String| s@).to_set() == root_set(all_files@.map_values(|s: String| s@)),
        strictly_sorted(p.packages@.map_values(|s: String| s@), false),
        p.packages@.map_values(|s: String| s@).to_set() == package_set(all_files@.map_values(|s: String| s@)),
{
    let ghost files = all_files@.map_values(|s: String| s@);
    let mut roots: Vec<String> = Vec::new();
    let mut packages: Vec<String> = Vec::new();
    assert(roots@.map_values(|s: String| s@) =~= Seq::<Seq<char>>::empty());
    insert_sorted(&mut roots, String::new(), true);
    let src = "src";
    let lib = "lib";
    let slash = "/";
    proof {
        reveal_strlit("/");
    }
    let src_dir = crate::text::concat(src, slash);
    let lib_dir = crate::text::concat(lib, slash);
    let src_prefix = chars_of(src_dir.as_str());
    let lib_prefix = chars_of(lib_dir.as_str());
    let mut i: usize = 0;
    while i < all_files.len()
        invariant
            i <= all_files@.len(),
            files == all_files@.map_values(|s: String| s@),
            src_prefix@ == "src"@.push('/'),
            src@ == "src"@,
            lib@ == "lib"@,
            lib_prefix@ == "lib"@.push('/'),
            strictly_sorted(roots@.map_values(|s: String| s@), true),
            roots@.map_values(|s: String| s@).to_set() == root_set(files.take(i as int)),
            strictly_sorted(packages@.map_values(|s: String| s@), false),
            packages@.map_values(|s: String| s@).to_set() == package_set(files.take(i as int)),
        decreases all_files@.len() - i,
    {
        assert(files.take(i + 1).drop_last() == files.take(i as int));
        assert(files.take(i + 1).last() == all_files@[i as int]@);
        let rel = chars_of(all_files[i].as_str());
        let name = last_piece_of(rel.as_slice());
        let ghost f = rel@;
        let ghost s0 = roots@.map_values(|s: String| s@).to_set();
        let ghost part_init: Set<Seq<char>> = if is_init(f) { set![before_last(before_last(f, '/'), '/')] } else { Set::empty() };
        let ghost part_src: Set<Seq<char>> = if under(f, "src"@) { set!["src"@] } else { Set::empty() };
        let ghost part_lib: Set<Seq<char>> = if under(f, "lib"@) { set!["lib"@] } else { Set::empty() };
        let ghost p0 = packages@.map_values(|s: String| s@).to_set();
        if str_eq(string_of(name.as_slice()).as_str(), "__init__.py") {
            let dir = parent_of(rel.as_slice());
            let up = parent_of(dir.as_slice());
            insert_sorted(&mut packages, string_of(dir.as_slice()), false);
            insert_sorted(&mut roots, string_of(up.as_slice()), true);
        }
        assert(roots@.map_values(|s: String| s@).to_set() =~= s0.union(part_init));
        assert(packages@.map_values(|s: String| s@).to_set() =~= p0.union(
            if is_init(f) { set![before_last(f, '/')] } else { Set::empty() }));
        let ghost s1 = roots@.map_values(|s: String| s@).to_set();
        if starts_with(rel.as_slice(), src_prefix.as_slice()) {
            insert_sorted(&mut roots, crate::text::owned(src), true);
        }
        assert(roots@.map_values(|s: String| s@).to_set() =~= s1.union(part_src));
        let ghost s2 = roots@.map_values(|s: String| s@).to_set();
        if starts_with(rel.as_slice(), lib_prefix.as_slice()) {
            insert_sorted(&mut roots, crate::text::owned(lib), true);
        }
        assert(roots@.map_values(|s: String| s@).to_set() =~= s2.union(part_lib));
        assert(roots_of(f) =~= part_init.union(part_src).union(part_lib));
        assert(roots@.map_values(|s: String| s@).to_set() =~= root_set(files.take(i + 1)));
        assert(packages@.map_values(|s: String| s@).to_set() =~= package_set(files.take(i + 1)));
        i += 1;
    }
    assert(files.take(i as int) == files);
    PythonProject { roots, packages }
}

/// The files a module path may be: `c.py`, `c/__init__.py`, `c.pyi`.
pub open spec fn module_forms(c: Seq<char>) -> Seq<Seq<char>> {
    seq![c + ".py"@, c + "/__init__.py"@, c + ".pyi"@]
}

/// The first of the module's forms that is a scanned file.
pub open spec fn module_file(paths: Seq<Seq<char>>, c: Seq<char>) -> Option<FileId> {
    first_some(module_forms(c).map_values(|f: Seq<char>| index_id(paths, f)))
}

/// A module path resolves to its source before anything else: where `c.py`
/// is a scanned file the module is that file; otherwise `c/__init__.py` where
/// it is one; the stub `c.pyi` only where neither exists; and nothing where
/// none of the three does. Whatever it picks is one of the three.
pub proof fn lemma_module_file_prefers_source(paths: Seq<Seq<char>>, c: Seq<char>)
    requires
        paths.len() <= u32::MAX,
    ensures
        paths.contains(c + ".py"@) ==> module_file(paths, c) == index_id(paths, c + ".py"@),
        !paths.contains(c + ".py"@) && paths.contains(c + "/__init__.py"@) ==> module_file(paths, c) == index_id(paths, c + "/__init__.py"@),
        !paths.contains(c + ".py"@) && !paths.contains(c + "/__init__.py"@) ==> module_file(paths, c) == index_id(paths, c + ".pyi"@),
        module_file(paths, c) matches Some(id) ==> 0 <= id.0 < paths.len() && (paths[id.0 as int] == c + ".py"@
            || paths[id.0 as int] == c + "/__init__.py"@ || paths[id.0 as int] == c + ".pyi"@),
{
    crate::resolve::lemma_last_match(paths, c + ".py"@);
    crate::resolve::lemma_last_match(paths, c + "/__init__.py"@);
    crate::resolve::lemma_last_match(paths, c + ".pyi"@);
    let forms = module_forms(c).map_values(|f: Seq<char>| index_id(paths, f));
    reveal_with_fuel(first_some, 4);
    assert(forms.drop_last().drop_last().drop_last() =~= Seq::<Option<FileId>>::empty());
    assert(forms[0] == index_id(paths, c + ".py"@));
    assert(forms[1] == index_id(paths, c + "/__init__.py"@));
    assert(forms[2] == index_id(paths, c + ".pyi"@));
}

/// An imported name as a submodule of `cand`, in order, then `cand` itself.
pub open spec fn module_or_names(paths: Seq<Seq<char>>, cand: Seq<char>, names: Seq<Seq<char>>) -> Option<FileId> {
    first_some(names.map_values(|n: Seq<char>| module_file(paths, joined_rel(cand, n))).push(module_file(paths, cand)))
}

/// How many `.` the specifier starts with.
pub open spec fn leading_dots(s: Seq<char>) -> nat
    decreases s.len(),
{
    if s.len() > 0 && s[0] == '.' {
        1 + leading_dots(s.drop_first())
    } else {
        0
    }
}

/// The directory `k` levels up from file `p`: its directory for one.
pub open spec fn ancestor(p: Seq<char>, k: nat) -> Seq<char>
    decreases k,
{
    if k == 0 {
        p
    } else {
        before_last(ancestor(p, (k - 1) as nat), '/')
    }
}

/// The dotted module path as a directory path.
pub open spec fn dots_to_slashes(s: Seq<char>) -> Seq<char> {
    s.map_values(|c: char| if c == '.' { '/' } else { c })
}

/// How a Python import resolves: a relative one climbs one directory per dot
/// past the first and names no file if nothing is there; an absolute one is
/// tried under each root, and is outside the repository (named by its first
/// dotted part) if no root has it. Imported names are tried as submodules first.
pub open spec fn py_outcome(paths: Seq<Seq<char>>, from: Seq<char>, s: Seq<char>, names: Seq<Seq<char>>, roots: Seq<Seq<char>>) -> Result<FileId, ReasonView> {
    if s.len() == 0 {
        Err(ReasonView::NoSuchFile(s))
    } else if leading_dots(s) > 0 {
        let k = leading_dots(s);
        let base = ancestor(from, k);
        let rest = dots_to_slashes(s.skip(k as int));
        let cand = if rest.len() == 0 { base } else { joined_rel(base, rest) };
        match module_or_names(paths, cand, names) {
            Some(id) => Ok(id),
            None => Err(ReasonView::NoSuchFile(s)),
        }
    } else {
        match first_some(roots.map_values(|r: Seq<char>| module_or_names(paths, joined_rel(r, dots_to_slashes(s)), names))) {
            Some(id) => Ok(id),
            None => Err(ReasonView::External(split(s, '.')[0])),
        }
    }
}

/// The first form of module path `c` that is a scanned file.
fn try_module(c: &[char], index: &FileIndex) -> (r: Option<FileId>)
    requires
        index.wf(),
    ensures
        r == module_file(index.path_texts(), c@),
{
    let ghost paths = index.path_texts();
    let ghost forms = module_forms(c@).map_values(|f: Seq<char>| index_id(paths, f));
    proof {
        reveal_with_fuel(first_some, 4);
        assert(forms.drop_last().drop_last().drop_last() =~= Seq::<Option<FileId>>::empty());
    }
    let a = crate::text::concat_chars(c, chars_of(".py").as_slice());
    if let Some(id) = index.id(string_of(a.as_slice()).as_str()) {
        return Some(id);
    }
    let b = crate::text::concat_chars(c, chars_of("/__init__.py").as_slice());
    if let Some(id) = index.id(string_of(b.as_slice()).as_str()) {
        return Some(id);
    }
    let d = crate::text::concat_chars(c, chars_of(".pyi").as_slice());
    index.id(string_of(d.as_slice()).as_str())
}

/// Each imported name as a submodule of `cand`, then `cand` itself.
fn module_in(cand: &[char], names: &[String], index: &FileIndex) -> (r: Option<FileId>)
    requires
        index.wf(),
    ensures
        r == module_or_names(index.path_texts(), cand@, names@.map_values(|s: String| s@)),
{
    let ghost paths = index.path_texts();
    let ghost ns = names@.map_values(|s: String| s@);
    let ghost ms = ns.map_values(|n: Seq<char>| module_file(paths, joined_rel(cand@, n))).push(module_file(paths, cand@));
    let mut i: usize = 0;
    while i < names.len()
        invariant
            index.wf(),
            paths == index.path_texts(),
            i <= names@.len(),
            ns == names@.map_values(|s: String| s@),
            ms == ns.map_values(|n: Seq<char>| module_file(paths, joined_rel(cand@, n))).push(module_file(paths, cand@)),
            first_some(ms.take(i as int)) is None,
        decreases names@.len() - i,
    {
        let n = chars_of(names[i].as_str());
        let joined = join_rel_chars(cand, n.as_slice());
        let got = try_module(joined.as_slice(), index);
        assert(ms[i as int] == got);
        proof {
            lemma_first_some_step(ms, i as int);
        }
        if got.is_some() {
            proof {
                lemma_first_some_prefix(ms, i + 1);
            }
            return got;
        }
        i += 1;
    }
    let got = try_module(cand, index);
    proof {
        lemma_first_some_step(ms, i as int);
        assert(ms.take(i + 1) =~= ms);
    }
    got
}

fn dots_as_slashes(s: &[char]) -> (r: Vec<char>)
    ensures
        r@ == dots_to_slashes(s@),
{
    let mut out: Vec<char> = Vec::new();
    let mut i: usize = 0;
    while i < s.len()
        invariant
            i <= s.len(),
            out@ == dots_to_slashes(s@.take(i as int)),
        decreases s.len() - i,
    {
        out.push(if s[i] == '.' { '/' } else { s[i] });
        i += 1;
        assert(dots_to_slashes(s@.take(i as int)) =~= dots_to_slashes(s@.take(i - 1)).push(if s@[i - 1] == '.' { '/' } else { s@[i - 1] }));
    }
    assert(s@.take(i as int) == s@);
    out
}

/// Resolves a Python import written in `from_path`: `specifier` is the
/// module (with leading dots when relative), `names` the names imported from it.
pub fn resolve_specifier(
    from_path: &str,
    specifier: &str,
    names: &[String],
    index: &FileIndex,
    project: &PythonProject,
) -> (r: Result<FileId, UnresolvedReason>)
    requires
        index.wf(),
    ensures
        result_view(r) == py_outcome(
            index.path_texts(),
            from_path@,
            specifier@,
            names@.map_values(|s: String| s@),
            project.roots@.map_values(|s: String| s@),
        ),
{
    let s = chars_of(specifier);
    if s.len() == 0 {
        return Err(UnresolvedReason::NoSuchFile(string_of(s.as_slice())));
    }
    let mut k: usize = 0;
    assert(s@.skip(0) =~= s@);
    while k < s.len() && s[k] == '.'
        invariant
            k <= s.len(),
            leading_dots(s@) == k + leading_dots(s@.skip(k as int)),
        decreases s.len() - k,
    {
        assert(s@.skip(k as int).drop_first() =~= s@.skip(k + 1));
        k += 1;
    }
    assert(leading_dots(s@.skip(k as int)) == 0);
    if k > 0 {
        let from = chars_of(from_path);
        let mut base = parent_of(from.as_slice());
        let mut j: usize = 1;
        assert(ancestor(from@, 0) == from@);
        assert(ancestor(from@, 1) == before_last(from@, '/'));
        while j < k
            invariant
                1 <= j <= k,
                base@ == ancestor(from@, j as nat),
            decreases k - j,
        {
            base = parent_of(base.as_slice());
            j += 1;
        }
        let rest = dots_as_slashes(vstd::slice::slice_subrange(s.as_slice(), k, s.len()));
        assert(s@.subrange(k as int, s@.len() as int) =~= s@.skip(k as int));
        let cand = if rest.len() == 0 {
            base
        } else {
            join_rel_chars(base.as_slice(), rest.as_slice())
        };
        return match module_in(cand.as_slice(), names, index) {
            Some(id) => Ok(id),
            None => Err(UnresolvedReason::NoSuchFile(string_of(s.as_slice()))),
        };
    }
    let as_path = dots_as_slashes(s.as_slice());
    let ghost paths = index.path_texts();
    let ghost ns = names@.map_values(|x: String| x@);
    let ghost rs = project.roots@.map_values(|x: String| x@);
    let ghost hits = rs.map_values(|r: Seq<char>| module_or_names(paths, joined_rel(r, dots_to_slashes(s@)), ns));
    let mut i: usize = 0;
    while i < project.roots.len()
        invariant
            index.wf(),
            paths == index.path_texts(),
            i <= project.roots@.len(),
            ns == names@.map_values(|x: String| x@),
            rs == project.roots@.map_values(|x: String| x@),
            as_path@ == dots_to_slashes(s@),
            hits == rs.map_values(|r: Seq<char>| module_or_names(paths, joined_rel(r, dots_to_slashes(s@)), ns)),
            first_some(hits.take(i as int)) is None,
            leading_dots(s@) == 0,
            s@.len() > 0,
            s@ == specifier@,
        decreases project.roots@.len() - i,
    {
        let root = chars_of(project.roots[i].as_str());
        let cand = join_rel_chars(root.as_slice(), as_path.as_slice());
        let got = module_in(cand.as_slice(), names, index);
        assert(hits[i as int] == got);
        proof {
            lemma_first_some_step(hits, i as int);
        }
        if let Some(id) = got {
            proof {
                lemma_first_some_prefix(hits, i + 1);
            }
            return Ok(id);
        }
        i += 1;
    }
    proof {
        lemma_first_some_all(hits);
        lemma_split_nonempty(s@, '.');
    }
    let parts = split_chars(s.as_slice(), '.');
    Err(UnresolvedReason::External(string_of(parts[0].as_slice())))
}

} // verus!
