//! What the walk over a repository keeps: which files are manifests, and how
//! a path found on disk is written relative to the root.
use vstd::prelude::*;
use crate::model::{language_of_extension, Language};
use crate::order::{is_before, lemma_stable_sorted_keyed, lemma_stable_sorted_multiset, lemma_stable_sorted_sorted, sorted_by, stable_sorted, str_before, count_not_before};
use crate::baseline::{lemma_path_order_total, path_order, sort_paths};
use crate::text::{concat, last_index_of, rfind_char};
use crate::config::strs;
use crate::paths::{joined_path, push_segment, rel_joined};
use crate::text::{chars_eq, chars_of, ends_with, is_prefix, is_suffix, join, join_chars, split, split_chars, starts_with, str_eq, string_of};

verus! {

/// A source file the walk kept.
#[derive(Debug, Clone, PartialEq, Eq)]
pub struct WalkedFile {
    pub rel_path: String,
    pub abs_path: String,
    pub language: Language,
    pub bytes: u64,
}

/// A file the walk passed over, and why.
#[derive(Debug, Clone, PartialEq, Eq)]
pub struct SkippedFile {
    pub rel_path: String,
    pub reason: SkipReason,
}

/// Why a file was passed over.
#[derive(Debug, Clone, PartialEq, Eq)]
pub enum SkipReason {
    TooLarge { bytes: u64, limit: u64 },
    Binary,
    Excluded,
    Unreadable(String),
}

/// How the walk runs: the size above which a file is skipped, whether ignore
/// files are honoured, whether hidden files are visited, and the number of
/// threads.
#[derive(Debug, Clone, PartialEq, Eq)]
pub struct WalkOptions {
    pub max_file_bytes: u64,
    pub respect_gitignore: bool,
    pub hidden: bool,
    pub threads: usize,
}

/// What a walk found: source files, skipped files and manifests, each sorted
/// by path.
#[derive(Debug, Clone, PartialEq, Eq)]
pub struct WalkOutcome {
    pub files: Vec<WalkedFile>,
    pub skipped: Vec<SkippedFile>,
    pub manifests: Vec<String>,
}

/// File names that describe how imports resolve.
pub open spec fn manifest_name(n: Seq<char>) -> bool {
    n == "package.json"@ || n == "Cargo.toml"@ || n == "go.mod"@ || n == "go.work"@
        || n == "jsconfig.json"@ || n == "pnpm-workspace.yaml"@ || n == "pyproject.toml"@
        || n == "setup.cfg"@ || (is_prefix("tsconfig"@, n) && is_suffix(".json"@, n))
}

/// Whether a file name is a manifest that changes how imports resolve.
pub fn is_manifest(file_name: &str) -> (r: bool)
    ensures
        r == manifest_name(file_name@),
{
    if str_eq(file_name, "package.json") || str_eq(file_name, "Cargo.toml") || str_eq(file_name, "go.mod")
        || str_eq(file_name, "go.work") || str_eq(file_name, "jsconfig.json")
        || str_eq(file_name, "pnpm-workspace.yaml") || str_eq(file_name, "pyproject.toml")
        || str_eq(file_name, "setup.cfg") {
        return true;
    }
    let n = chars_of(file_name);
    let p = chars_of("tsconfig");
    let s = chars_of(".json");
    starts_with(n.as_slice(), p.as_slice()) && ends_with(n.as_slice(), s.as_slice())
}

/// The normal components among `/`-separated pieces: empty and `.` pieces
/// are dropped, as `Path::components` drops them.
pub open spec fn normal_parts(pieces: Seq<Seq<char>>) -> Seq<Seq<char>>
    decreases pieces.len(),
{
    if pieces.len() == 0 {
        Seq::empty()
    } else {
        let prev = normal_parts(pieces.drop_last());
        if pieces.last().len() > 0 && pieces.last() != "."@ {
            prev.push(pieces.last())
        } else {
            prev
        }
    }
}

/// A path as `Path` reads it on Unix: whether it starts at the root, whether
/// it starts with `.`, and its normal components.
pub open spec fn path_shape(p: Seq<char>) -> (bool, bool, Seq<Seq<char>>) {
    (is_prefix("/"@, p), p == "."@ || is_prefix("./"@, p), normal_parts(split(p, '/')))
}

/// `path` relative to `root`, its components joined with `/`, when `root`
/// is a leading part of `path` component by component.
pub open spec fn relative_text(root: Seq<char>, path: Seq<char>) -> Option<Seq<char>> {
    let r = path_shape(root);
    let p = path_shape(path);
    if r.0 == p.0 && r.1 == p.1 && r.2.len() <= p.2.len() && p.2.take(r.2.len() as int) == r.2 {
        Some(join(p.2.skip(r.2.len() as int), '/'))
    } else {
        None
    }
}

fn normal_parts_of(s: &[char]) -> (r: Vec<Vec<char>>)
    ensures
        r@.len() == normal_parts(split(s@, '/')).len(),
        forall|k: int| 0 <= k < r@.len() ==> #[trigger] r@[k]@ == normal_parts(split(s@, '/'))[k],
{
    let pieces = split_chars(s, '/');
    let ghost ps = split(s@, '/');
    let mut out: Vec<Vec<char>> = Vec::new();
    let mut i: usize = 0;
    while i < pieces.len()
        invariant
            i <= pieces@.len(),
            pieces@.len() == ps.len(),
            forall|k: int| 0 <= k < pieces@.len() ==> #[trigger] pieces@[k]@ == ps[k],
            out@.len() == normal_parts(ps.take(i as int)).len(),
            forall|k: int| 0 <= k < out@.len() ==> #[trigger] out@[k]@ == normal_parts(ps.take(i as int))[k],
        decreases pieces@.len() - i,
    {
        assert(ps.take(i + 1).drop_last() == ps.take(i as int));
        let piece = &pieces[i];
        let dot = piece.len() == 1 && piece[0] == '.';
        proof {
            reveal_strlit(".");
            if piece@.len() == 1 && piece@[0] == '.' {
                assert(piece@ =~= "."@);
            }
        }
        if piece.len() > 0 && !dot {
            out.push(piece.clone());
        }
        i += 1;
    }
    assert(ps.take(pieces@.len() as int) == ps);
    out
}

fn shape_flags(s: &[char]) -> (r: (bool, bool))
    ensures
        r.0 == path_shape(s@).0,
        r.1 == path_shape(s@).1,
{
    let slash = chars_of("/");
    let dot_slash = chars_of("./");
    let dot = chars_of(".");
    (starts_with(s, slash.as_slice()), chars_eq(s, dot.as_slice()) || starts_with(s, dot_slash.as_slice()))
}

/// A path with the separator `sep` read as `/`.
pub open spec fn slashed(p: Seq<char>, sep: char) -> Seq<char> {
    p.map_values(|c: char| if c == sep { '/' } else { c })
}

/// `path` relative to `root`, written with `/`, both read with this
/// platform's separator as well as `/`; nothing when `path` is not under
/// `root`.
pub fn to_rel_string(root: &str, path: &str) -> (r: Option<String>)
    ensures
        exists|sep: char| (sep == '/' || sep == '\\') && match r {
            Some(s) => relative_text(slashed(root@, sep), slashed(path@, sep)) == Some(s@),
            None => relative_text(slashed(root@, sep), slashed(path@, sep)) is None,
        },
{
    let sep = crate::lsp::uri::main_separator();
    let r = string_of(crate::text::replace_char(chars_of(root).as_slice(), sep, '/').as_slice());
    let p = string_of(crate::text::replace_char(chars_of(path).as_slice(), sep, '/').as_slice());
    assert(r@ =~= slashed(root@, sep));
    assert(p@ =~= slashed(path@, sep));
    let out = relative_slashed(r.as_str(), p.as_str());
    assert((sep == '/' || sep == '\\') && match out {
        Some(s) => relative_text(slashed(root@, sep), slashed(path@, sep)) == Some(s@),
        None => relative_text(slashed(root@, sep), slashed(path@, sep)) is None,
    });
    out
}

fn relative_slashed(root: &str, path: &str) -> (r: Option<String>)
    ensures
        match r {
            Some(s) => relative_text(root@, path@) == Some(s@),
            None => relative_text(root@, path@) is None,
        },
{
    let rc = chars_of(root);
    let pc = chars_of(path);
    let rf = shape_flags(rc.as_slice());
    let pf = shape_flags(pc.as_slice());
    let rp = normal_parts_of(rc.as_slice());
    let pp = normal_parts_of(pc.as_slice());
    let ghost rs = normal_parts(split(root@, '/'));
    let ghost qs = normal_parts(split(path@, '/'));
    if rf.0 != pf.0 || rf.1 != pf.1 || rp.len() > pp.len() {
        return None;
    }
    let mut i: usize = 0;
    while i < rp.len()
        invariant
            i <= rp@.len(),
            rp@.len() <= pp@.len(),
            rs == normal_parts(split(root@, '/')),
            qs == normal_parts(split(path@, '/')),
            rp@.len() == rs.len(),
            pp@.len() == qs.len(),
            forall|k: int| 0 <= k < rp@.len() ==> #[trigger] rp@[k]@ == rs[k],
            forall|k: int| 0 <= k < pp@.len() ==> #[trigger] pp@[k]@ == qs[k],
            forall|k: int| 0 <= k < i ==> qs[k] == rs[k],
        decreases rp@.len() - i,
    {
        if !chars_eq(rp[i].as_slice(), pp[i].as_slice()) {
            assert(qs.take(rs.len() as int)[i as int] != rs[i as int]);
            assert(qs.take(rs.len() as int) != rs);
            return None;
        }
        i += 1;
    }
    assert(qs.take(rs.len() as int) =~= rs);
    let mut rest: Vec<Vec<char>> = Vec::new();
    let mut j: usize = rp.len();
    while j < pp.len()
        invariant
            rp@.len() <= j <= pp@.len(),
            pp@.len() == qs.len(),
            rp@.len() == rs.len(),
            forall|k: int| 0 <= k < pp@.len() ==> #[trigger] pp@[k]@ == qs[k],
            rest@.map_values(|p: Vec<char>| p@) =~= qs.subrange(rs.len() as int, j as int),
        decreases pp@.len() - j,
    {
        let c = pp[j].clone();
        assert(c@ =~= pp@[j as int]@);
        let ghost before = rest@;
        rest.push(c);
        assert(rest@.map_values(|p: Vec<char>| p@) =~= before.map_values(|p: Vec<char>| p@).push(qs[j as int]));
        j += 1;
        assert(rest@.map_values(|p: Vec<char>| p@) =~= qs.subrange(rs.len() as int, j as int));
    }
    let joined = join_chars(&rest, '/');
    Some(string_of(joined.as_slice()))
}


/// Directories the walk never enters: version control, caches, build
/// output, installed dependencies and editor settings.
pub open spec fn always_skipped() -> Seq<Seq<char>> {
    seq![
        ".git"@, ".hg"@, ".svn"@, ".zatlas"@, "node_modules"@, "target"@, "dist"@, "build"@, "out"@,
        ".next"@, ".nuxt"@, ".turbo"@, ".svelte-kit"@, ".venv"@, "venv"@, "__pycache__"@, ".mypy_cache"@,
        ".pytest_cache"@, ".tox"@, "vendor"@, "Pods"@, ".gradle"@, ".idea"@, ".vscode"@, "coverage"@, ".cache"@
    ]
}

fn skipped_dir_list() -> (v: Vec<&'static str>)
    ensures
        v@.map_values(|d: &str| d@) == always_skipped(),
{
    let v = vec![
        ".git", ".hg", ".svn", ".zatlas", "node_modules", "target", "dist", "build", "out",
        ".next", ".nuxt", ".turbo", ".svelte-kit", ".venv", "venv", "__pycache__", ".mypy_cache",
        ".pytest_cache", ".tox", "vendor", "Pods", ".gradle", ".idea", ".vscode", "coverage", ".cache",
    ];
    assert(v@.map_values(|d: &str| d@) =~= always_skipped());
    v
}

/// Whether the walk passes over a directory of this name.
pub fn skips_dir(name: &str) -> (r: bool)
    ensures
        r == always_skipped().contains(name@),
{
    let dirs = skipped_dir_list();
    let ghost ds = dirs@.map_values(|d: &str| d@);
    let mut i: usize = 0;
    while i < dirs.len()
        invariant
            i <= dirs@.len(),
            ds == dirs@.map_values(|d: &str| d@),
            ds == always_skipped(),
            forall|j: int| 0 <= j < i ==> ds[j] != name@,
        decreases dirs@.len() - i,
    {
        if str_eq(dirs[i], name) {
            assert(ds[i as int] == name@);
            return true;
        }
        i += 1;
    }
    false
}

/// The extension of a file name as `Path::extension` reads it: what follows
/// the last `.`, unless there is none or the only one starts the name.
pub open spec fn extension_of(name: Seq<char>) -> Option<Seq<char>> {
    match last_index_of(name, '.') {
        Some(k) => if k == 0 { None } else { Some(name.skip(k + 1)) },
        None => None,
    }
}

/// The language of a file name, by its extension.
pub open spec fn language_of_name(name: Seq<char>) -> Option<Language> {
    match extension_of(name) {
        Some(e) => language_of_extension(e),
        None => None,
    }
}

pub(crate) fn language_of_file(name: &str) -> (r: Option<Language>)
    ensures
        r == language_of_name(name@),
{
    let cs = chars_of(name);
    proof { crate::text::lemma_last_index_of(cs@, '.'); }
    match rfind_char(cs.as_slice(), '.') {
        None => None,
        Some(k) => {
            if k == 0 {
                None
            } else {
                let ext = string_of(vstd::slice::slice_subrange(cs.as_slice(), k + 1, cs.len()));
                assert(ext@ =~= name@.skip(k + 1));
                Language::from_extension(ext.as_str())
            }
        },
    }
}

/// What building a glob set from `patterns` and matching `path` against it
/// gives: whether it matches, or, where a pattern does not parse (its
/// position) or the set cannot be built (no position), globset's reason.
pub uninterp spec fn glob_set_checked(patterns: Seq<Seq<char>>, path: Seq<char>) -> Result<bool, (Option<usize>, Seq<char>)>;

/// `globset::Glob::new` on each pattern, `GlobSetBuilder::build`, then
/// `is_match(path)`: the answer is named `glob_set_checked`. The first
/// pattern that does not parse comes back by position, a set that cannot be
/// built without one, each with globset's message. Whether that happens does
/// not depend on the path, which is read only once the set is built.
#[verifier::external_body]
fn glob_set_match_checked(patterns: &Vec<String>, path: &str) -> (r: Result<bool, (Option<usize>, String)>)
    ensures
        match r {
            Ok(b) => glob_set_checked(strs(patterns@), path@) == Ok::<bool, (Option<usize>, Seq<char>)>(b),
            Err(e) => glob_set_checked(strs(patterns@), path@) == Err::<bool, (Option<usize>, Seq<char>)>((e.0, e.1@)),
        },
        r matches Err((Some(i), _)) ==> i < patterns@.len(),
        r is Ok ==> forall|q: Seq<char>| #[trigger] glob_set_checked(strs(patterns@), q) is Ok,
        r is Err ==> forall|q: Seq<char>| #[trigger] glob_set_checked(strs(patterns@), q)
            == glob_set_checked(strs(patterns@), path@),
{
    let mut builder = globset::GlobSetBuilder::new();
    for (i, p) in patterns.iter().enumerate() {
        match globset::Glob::new(p) {
            Ok(g) => {
                builder.add(g);
            },
            Err(e) => return Err((Some(i), e.to_string())),
        }
    }
    match builder.build() {
        Ok(set) => Ok(set.is_match(path)),
        Err(e) => Err((None, e.to_string())),
    }
}

/// How `{:?}` writes a text: quoted, with escapes.
pub uninterp spec fn debug_text(s: Seq<char>) -> Seq<char>;

/// `format!("{:?}", s)` for a `str`: named `debug_text`.
#[verifier::external_body]
fn debug_quoted(s: &str) -> (r: String)
    ensures
        r@ == debug_text(s@),
{
    format!("{s:?}")
}

/// The parts with `sep` between each neighbouring pair.
pub open spec fn joined_with(parts: Seq<Seq<char>>, sep: Seq<char>) -> Seq<char>
    decreases parts.len(),
{
    if parts.len() == 0 {
        Seq::empty()
    } else if parts.len() == 1 {
        parts[0]
    } else {
        joined_with(parts.drop_last(), sep) + sep + parts.last()
    }
}

fn join_strs(parts: &Vec<String>, sep: &str) -> (r: String)
    ensures
        r@ == joined_with(strs(parts@), sep@),
{
    let ghost ps = strs(parts@);
    let mut out = String::new();
    let mut i: usize = 0;
    while i < parts.len()
        invariant
            i <= parts@.len(),
            ps == strs(parts@),
            out@ == joined_with(ps.take(i as int), sep@),
        decreases parts@.len() - i,
    {
        assert(ps.take(i + 1).drop_last() =~= ps.take(i as int));
        assert(ps.take(i + 1).last() == parts@[i as int]@);
        if i == 0 {
            out = concat(out.as_str(), parts[i].as_str());
            assert(out@ =~= joined_with(ps.take(1), sep@));
        } else {
            let with_sep = concat(out.as_str(), sep);
            out = concat(with_sep.as_str(), parts[i].as_str());
        }
        i += 1;
    }
    assert(ps.take(i as int) =~= ps);
    out
}

/// The message for a glob that cannot be used.
pub open spec fn glob_error_text(quoted: Seq<char>, reason: Seq<char>) -> Seq<char> {
    "bad glob pattern "@ + quoted + ": "@ + reason
}

/// Whether `path` matches the globs, or why they cannot be used: a pattern
/// that does not parse is named, a set that cannot be built names all the
/// patterns, joined with `, `.
pub open spec fn glob_outcome(patterns: Seq<Seq<char>>, path: Seq<char>) -> Result<bool, Seq<char>> {
    match glob_set_checked(patterns, path) {
        Ok(b) => Ok(b),
        Err((Some(i), m)) => Err(glob_error_text(debug_text(patterns[i as int]), m)),
        Err((None, m)) => Err(glob_error_text(debug_text(joined_with(patterns, ", "@)), m)),
    }
}

fn glob_match(patterns: &Vec<String>, path: &str) -> (r: Result<bool, String>)
    ensures
        match r {
            Ok(b) => glob_outcome(strs(patterns@), path@) == Ok::<bool, Seq<char>>(b),
            Err(e) => glob_outcome(strs(patterns@), path@) == Err::<bool, Seq<char>>(e@),
        },
        r is Ok ==> forall|q: Seq<char>| #[trigger] glob_outcome(strs(patterns@), q) is Ok,
        r is Err ==> forall|q: Seq<char>| #[trigger] glob_outcome(strs(patterns@), q)
            == glob_outcome(strs(patterns@), path@),
{
    let ghost pv = strs(patterns@);
    match glob_set_match_checked(patterns, path) {
        Ok(b) => {
            assert forall|q: Seq<char>| #[trigger] glob_outcome(pv, q) is Ok by {
                assert(glob_set_checked(pv, q) is Ok);
            }
            Ok(b)
        },
        Err((which, reason)) => {
            let quoted = match which {
                Some(i) => debug_quoted(patterns[i].as_str()),
                None => {
                    let all = join_strs(patterns, ", ");
                    debug_quoted(all.as_str())
                },
            };
            let m = concat(concat(concat("bad glob pattern ", quoted.as_str()).as_str(), ": ").as_str(), reason.as_str());
            assert forall|q: Seq<char>| #[trigger] glob_outcome(pv, q) == glob_outcome(pv, path@) by {
                assert(glob_set_checked(pv, q) == glob_set_checked(pv, path@));
            }
            Err(m)
        },
    }
}

/// Whether globs can be used for the walk: nothing to check when there are
/// none; otherwise the reason the first bad one cannot be used.
pub fn check_globs(patterns: &Vec<String>) -> (r: Result<(), String>)
    ensures
        patterns@.len() == 0 ==> r is Ok,
        patterns@.len() > 0 ==> match r {
            Ok(_) => forall|q: Seq<char>| #[trigger] glob_outcome(strs(patterns@), q) is Ok,
            Err(e) => forall|q: Seq<char>| #[trigger] glob_outcome(strs(patterns@), q)
                == Err::<bool, Seq<char>>(e@),
        },
{
    if patterns.len() == 0 {
        return Ok(());
    }
    match glob_match(patterns, "") {
        Ok(_) => Ok(()),
        Err(e) => Err(e),
    }
}

/// What the walk does with one file it meets.
#[derive(Debug, Clone, PartialEq, Eq)]
pub enum EntryFate {
    /// Neither a manifest nor source in a known language, or outside the
    /// wanted globs.
    Ignored,
    /// A manifest, recorded by path.
    Manifest,
    /// A source file kept, with its language and size.
    Source(Language, u64),
    /// A source file passed over, and why.
    Skipped(SkipReason),
}

/// The fate of the file at `rel` named `name`: manifests are recorded;
/// a file in no known language is ignored, as is one outside the wanted
/// globs (when there are any); then an excluded file, one whose size could
/// not be read, one larger than `max_bytes` and one that looks binary are
/// skipped, in that order, and the rest kept. A glob that cannot be used
/// fails the walk.
pub open spec fn spec_entry_fate(
    rel: Seq<char>,
    name: Seq<char>,
    bytes: Result<u64, String>,
    max_bytes: u64,
    looks_binary: bool,
    includes: Seq<Seq<char>>,
    exclude: Seq<Seq<char>>,
) -> Result<EntryFate, Seq<char>> {
    if manifest_name(name) {
        Ok(EntryFate::Manifest)
    } else {
        match language_of_name(name) {
            None => Ok(EntryFate::Ignored),
            Some(l) => {
                let inc: Result<bool, Seq<char>> = if includes.len() == 0 { Ok(true) } else { glob_outcome(includes, rel) };
                match inc {
                    Err(e) => Err(e),
                    Ok(false) => Ok(EntryFate::Ignored),
                    Ok(true) => {
                        let exc: Result<bool, Seq<char>> = if exclude.len() == 0 { Ok(false) } else { glob_outcome(exclude, rel) };
                        match exc {
                            Err(e) => Err(e),
                            Ok(true) => Ok(EntryFate::Skipped(SkipReason::Excluded)),
                            Ok(false) => match bytes {
                                Err(m) => Ok(EntryFate::Skipped(SkipReason::Unreadable(m))),
                                Ok(b) => if b > max_bytes {
                                    Ok(EntryFate::Skipped(SkipReason::TooLarge { bytes: b, limit: max_bytes }))
                                } else if looks_binary {
                                    Ok(EntryFate::Skipped(SkipReason::Binary))
                                } else {
                                    Ok(EntryFate::Source(l, b))
                                },
                            },
                        }
                    },
                }
            },
        }
    }
}

/// What the walk does with the file at `rel` (relative, `/`-separated)
/// named `name`, given its size as read (or why it could not be), the size
/// limit, whether its first bytes hold a zero, and the configured globs.
pub fn entry_fate(
    rel: &str,
    name: &str,
    bytes: Result<u64, String>,
    max_bytes: u64,
    looks_binary: bool,
    includes: &Vec<String>,
    exclude: &Vec<String>,
) -> (r: Result<EntryFate, String>)
    ensures
        match r {
            Ok(f) => spec_entry_fate(rel@, name@, bytes, max_bytes, looks_binary,
                strs(includes@), strs(exclude@)) == Ok::<EntryFate, Seq<char>>(f),
            Err(e) => spec_entry_fate(rel@, name@, bytes, max_bytes, looks_binary,
                strs(includes@), strs(exclude@)) == Err::<EntryFate, Seq<char>>(e@),
        },
{
    if is_manifest(name) {
        return Ok(EntryFate::Manifest);
    }
    let language = match language_of_file(name) {
        None => return Ok(EntryFate::Ignored),
        Some(l) => l,
    };
    if includes.len() > 0 {
        match glob_match(includes, rel) {
            Err(e) => return Err(e),
            Ok(false) => return Ok(EntryFate::Ignored),
            Ok(true) => {},
        }
    }
    if exclude.len() > 0 {
        match glob_match(exclude, rel) {
            Err(e) => return Err(e),
            Ok(true) => return Ok(EntryFate::Skipped(SkipReason::Excluded)),
            Ok(false) => {},
        }
    }
    match bytes {
        Err(m) => Ok(EntryFate::Skipped(SkipReason::Unreadable(m))),
        Ok(b) => {
            if b > max_bytes {
                Ok(EntryFate::Skipped(SkipReason::TooLarge { bytes: b, limit: max_bytes }))
            } else if looks_binary {
                Ok(EntryFate::Skipped(SkipReason::Binary))
            } else {
                Ok(EntryFate::Source(language, b))
            }
        },
    }
}

/// Source files in order of path.
pub open spec fn file_order() -> spec_fn(WalkedFile, WalkedFile) -> bool {
    |a: WalkedFile, b: WalkedFile| str_before(a.rel_path@, b.rel_path@, false)
}

/// Skipped files in order of path.
pub open spec fn skip_order() -> spec_fn(SkippedFile, SkippedFile) -> bool {
    |a: SkippedFile, b: SkippedFile| str_before(a.rel_path@, b.rel_path@, false)
}

fn sort_files(v: Vec<WalkedFile>) -> (r: Vec<WalkedFile>)
    ensures
        r@ == stable_sorted(v@, file_order()),
{
    let ghost raw = v@;
    let ghost before = file_order();
    let total = v.len();
    let mut rest = v;
    let mut sorted: Vec<WalkedFile> = Vec::new();
    let mut taken: usize = 0;
    while rest.len() > 0
        invariant
            taken <= raw.len(),
            rest@ == raw.skip(taken as int),
            taken + rest@.len() == raw.len(),
            total == raw.len(),
            before == file_order(),
            sorted@ == stable_sorted(raw.take(taken as int), before),
        decreases rest@.len(),
    {
        let ghost old_rest = rest@;
        let x = rest.remove(0);
        assert(rest@ =~= old_rest.skip(1));
        assert(raw.take(taken + 1).drop_last() == raw.take(taken as int));
        assert(raw.take(taken + 1).last() == x);
        let ghost s = sorted@;
        let mut count: usize = 0;
        let mut k: usize = 0;
        while k < sorted.len()
            invariant
                k <= sorted@.len(),
                s == sorted@,
                before == file_order(),
                count == count_not_before(s.take(k as int), x, before),
                count <= k,
            decreases sorted@.len() - k,
        {
            assert(s.take(k + 1).drop_last() == s.take(k as int));
            if !is_before(x.rel_path.as_str(), sorted[k].rel_path.as_str(), false) {
                count += 1;
            }
            k += 1;
        }
        assert(s.take(k as int) == s);
        sorted.insert(count, x);
        taken += 1;
        assert(rest@ =~= raw.skip(taken as int));
    }
    assert(raw.take(taken as int) =~= raw);
    sorted
}

fn sort_skipped(v: Vec<SkippedFile>) -> (r: Vec<SkippedFile>)
    ensures
        r@ == stable_sorted(v@, skip_order()),
{
    let ghost raw = v@;
    let ghost before = skip_order();
    let total = v.len();
    let mut rest = v;
    let mut sorted: Vec<SkippedFile> = Vec::new();
    let mut taken: usize = 0;
    while rest.len() > 0
        invariant
            taken <= raw.len(),
            rest@ == raw.skip(taken as int),
            taken + rest@.len() == raw.len(),
            total == raw.len(),
            before == skip_order(),
            sorted@ == stable_sorted(raw.take(taken as int), before),
        decreases rest@.len(),
    {
        let ghost old_rest = rest@;
        let x = rest.remove(0);
        assert(rest@ =~= old_rest.skip(1));
        assert(raw.take(taken + 1).drop_last() == raw.take(taken as int));
        assert(raw.take(taken + 1).last() == x);
        let ghost s = sorted@;
        let mut count: usize = 0;
        let mut k: usize = 0;
        while k < sorted.len()
            invariant
                k <= sorted@.len(),
                s == sorted@,
                before == skip_order(),
                count == count_not_before(s.take(k as int), x, before),
                count <= k,
            decreases sorted@.len() - k,
        {
            assert(s.take(k + 1).drop_last() == s.take(k as int));
            if !is_before(x.rel_path.as_str(), sorted[k].rel_path.as_str(), false) {
                count += 1;
            }
            k += 1;
        }
        assert(s.take(k as int) == s);
        sorted.insert(count, x);
        taken += 1;
        assert(rest@ =~= raw.skip(taken as int));
    }
    assert(raw.take(taken as int) =~= raw);
    sorted
}

/// What a walk found, each list sorted by path (files that share a path
/// keep the order they were found in): a permutation of each list given,
/// ascending by path.
pub fn sorted_walk(files: Vec<WalkedFile>, skipped: Vec<SkippedFile>, manifests: Vec<String>) -> (r: WalkOutcome)
    ensures
        r.files@ == stable_sorted(files@, file_order()),
        r.skipped@ == stable_sorted(skipped@, skip_order()),
        r.manifests@.map_values(|s: String| s@) == stable_sorted(manifests@.map_values(|s: String| s@), path_order()),
        r.files@.to_multiset() == files@.to_multiset(),
        r.skipped@.to_multiset() == skipped@.to_multiset(),
        r.manifests@.map_values(|s: String| s@).to_multiset() == manifests@.map_values(|s: String| s@).to_multiset(),
        sorted_by(r.files@.map_values(|f: WalkedFile| f.rel_path@), path_order()),
        sorted_by(r.skipped@.map_values(|f: SkippedFile| f.rel_path@), path_order()),
        sorted_by(r.manifests@.map_values(|s: String| s@), path_order()),
{
    let ghost fv = files@;
    let ghost sv = skipped@;
    let ghost mv = manifests@.map_values(|s: String| s@);
    let f = sort_files(files);
    let s = sort_skipped(skipped);
    let m = sort_paths(manifests);
    proof {
        lemma_path_order_total();
        let fk = |w: WalkedFile| w.rel_path@;
        let sk = |w: SkippedFile| w.rel_path@;
        lemma_stable_sorted_keyed(fv, fk, file_order(), path_order());
        lemma_stable_sorted_keyed(sv, sk, skip_order(), path_order());
        lemma_stable_sorted_sorted(fv.map_values(fk), path_order());
        lemma_stable_sorted_sorted(sv.map_values(sk), path_order());
        lemma_stable_sorted_sorted(mv, path_order());
        lemma_stable_sorted_multiset(fv, file_order());
        lemma_stable_sorted_multiset(sv, skip_order());
        lemma_stable_sorted_multiset(mv, path_order());
        assert(f@.map_values(|x: WalkedFile| x.rel_path@) =~= f@.map_values(fk));
        assert(s@.map_values(|x: SkippedFile| x.rel_path@) =~= s@.map_values(sk));
    }
    WalkOutcome { files: f, skipped: s, manifests: m }
}


proof fn lemma_split_append(a: Seq<char>, seg: Seq<char>, c: char)
    requires
        forall|i: int| 0 <= i < seg.len() ==> seg[i] != c,
    ensures
        split(a + seg, c) == split(a, c).update(split(a, c).len() - 1, split(a, c).last() + seg),
    decreases seg.len(),
{
    crate::text::lemma_split_nonempty(a, c);
    if seg.len() == 0 {
        assert(a + seg =~= a);
        assert(split(a, c).last() + seg =~= split(a, c).last());
        assert(split(a, c).update(split(a, c).len() - 1, split(a, c).last()) =~= split(a, c));
    } else {
        let s2 = seg.drop_last();
        lemma_split_append(a, s2, c);
        assert((a + seg).drop_last() =~= a + s2);
        assert((a + seg).last() == seg.last());
        let x = split(a, c);
        crate::text::lemma_split_nonempty(a + s2, c);
        assert((x.last() + s2).push(seg.last()) =~= x.last() + seg);
        assert(split(a + seg, c) =~= x.update(x.len() - 1, x.last() + seg));
    }
}

proof fn lemma_split_pieces(s: Seq<char>, c: char)
    ensures
        forall|k: int, i: int| 0 <= k < split(s, c).len() && 0 <= i < split(s, c)[k].len() ==> #[trigger] split(s, c)[k][i] != c,
    decreases s.len(),
{
    crate::text::lemma_split_nonempty(s, c);
    if s.len() > 0 {
        lemma_split_pieces(s.drop_last(), c);
        crate::text::lemma_split_nonempty(s.drop_last(), c);
        let p = split(s.drop_last(), c);
        assert forall|k: int, i: int| 0 <= k < split(s, c).len() && 0 <= i < split(s, c)[k].len() implies #[trigger] split(s, c)[k][i] != c by {
            if s.last() != c && k == p.len() - 1 {
                if i < p.last().len() {
                    assert(split(s, c)[k][i] == p[k][i]);
                }
            } else if k < p.len() {
                assert(split(s, c)[k] == p[k]);
            }
        }
    }
}

proof fn lemma_join_update_last(p: Seq<Seq<char>>, x: char, c: char)
    requires
        p.len() >= 1,
    ensures
        join(p.update(p.len() - 1, p.last().push(x)), c) == join(p, c).push(x),
{
    let q = p.update(p.len() - 1, p.last().push(x));
    if p.len() >= 2 {
        assert(q.drop_last() =~= p.drop_last());
    }
}

proof fn lemma_join_split(s: Seq<char>, c: char)
    ensures
        join(split(s, c), c) == s,
    decreases s.len(),
{
    if s.len() == 0 {
        assert(join(seq![Seq::<char>::empty()], c) == Seq::<char>::empty());
    } else {
        lemma_join_split(s.drop_last(), c);
        let p = split(s.drop_last(), c);
        crate::text::lemma_split_nonempty(s.drop_last(), c);
        if s.last() == c {
            assert(p.push(Seq::<char>::empty()).drop_last() =~= p);
            assert(join(p, c).push(c) + Seq::<char>::empty() =~= s);
        } else {
            lemma_join_update_last(p, s.last(), c);
            assert(s.drop_last().push(s.last()) =~= s);
        }
    }
}

proof fn lemma_normal_parts_push(pieces: Seq<Seq<char>>, seg: Seq<char>)
    ensures
        normal_parts(pieces.push(seg)) == if seg.len() > 0 && seg != "."@ { normal_parts(pieces).push(seg) } else { normal_parts(pieces) },
{
    assert(pieces.push(seg).drop_last() =~= pieces);
}

proof fn lemma_push_segment_parts(acc: Seq<char>, seg: Seq<char>)
    requires
        forall|i: int| 0 <= i < seg.len() ==> seg[i] != '/',
    ensures
        normal_parts(split(push_segment(acc, seg, '/'), '/'))
            == if seg.len() > 0 && seg != "."@ { normal_parts(split(acc, '/')).push(seg) } else { normal_parts(split(acc, '/')) },
{
    let x = split(acc, '/');
    crate::text::lemma_split_nonempty(acc, '/');
    if seg.len() == 0 || seg == "."@ {
    } else if acc.len() == 0 || acc.last() == '/' {
        lemma_split_append(acc, seg, '/');
        assert(x.last() == Seq::<char>::empty()) by {
            if acc.len() > 0 {
                assert(acc.last() == '/');
            }
        }
        assert(Seq::<char>::empty() + seg =~= seg);
        assert(x.update(x.len() - 1, seg) =~= x.drop_last().push(seg));
        lemma_normal_parts_push(x.drop_last(), seg);
        lemma_normal_parts_push(x.drop_last(), Seq::<char>::empty());
        assert(x.drop_last().push(Seq::<char>::empty()) =~= x);
    } else {
        lemma_split_append(acc.push('/'), seg, '/');
        assert(acc.push('/').drop_last() =~= acc);
        let y = split(acc.push('/'), '/');
        assert(y == x.push(Seq::<char>::empty()));
        assert(Seq::<char>::empty() + seg =~= seg);
        assert(y.update(y.len() - 1, seg) =~= x.push(seg));
        lemma_normal_parts_push(x, seg);
    }
}

proof fn lemma_joined_parts(root: Seq<char>, segs: Seq<Seq<char>>)
    requires
        forall|k: int, i: int| 0 <= k < segs.len() && 0 <= i < segs[k].len() ==> #[trigger] segs[k][i] != '/',
    ensures
        normal_parts(split(joined_path(root, segs, '/'), '/')) == normal_parts(split(root, '/')) + normal_parts(segs),
        root.len() <= joined_path(root, segs, '/').len(),
        joined_path(root, segs, '/').take(root.len() as int) == root,
    decreases segs.len(),
{
    if segs.len() == 0 {
        assert(normal_parts(split(root, '/')) + normal_parts(segs) =~= normal_parts(split(root, '/')));
        assert(root.take(root.len() as int) =~= root);
    } else {
        let prev = segs.drop_last();
        lemma_joined_parts(root, prev);
        let seg = segs.last();
        assert forall|i: int| 0 <= i < seg.len() implies seg[i] != '/' by {
            assert(segs[segs.len() - 1][i] != '/');
        }
        let acc = joined_path(root, prev, '/');
        lemma_push_segment_parts(acc, seg);
        lemma_normal_parts_push(prev, seg);
        assert(segs =~= prev.push(seg));
        let np = normal_parts(split(root, '/'));
        if seg.len() > 0 && seg != "."@ {
            assert(np + normal_parts(prev).push(seg) =~= (np + normal_parts(prev)).push(seg));
        }
        let j = push_segment(acc, seg, '/');
        assert(j.take(root.len() as int) =~= root) by {
            assert forall|i: int| 0 <= i < root.len() implies j[i] == root[i] by {
                assert(acc.take(root.len() as int)[i] == root[i]);
            }
        }
    }
}

proof fn lemma_rel_round_trip_slash(root: Seq<char>, rel: Seq<char>)
    requires
        root.len() >= 1,
        root[0] != '.',
        forall|k: int| 0 <= k < split(rel, '/').len() ==> (#[trigger] split(rel, '/')[k]).len() > 0 && split(rel, '/')[k] != "."@,
    ensures
        relative_text(root, rel_joined(root, rel, '/')) == Some(rel),
{
    let segs = split(rel, '/');
    lemma_split_pieces(rel, '/');
    lemma_joined_parts(root, segs);
    let p = rel_joined(root, rel, '/');
    reveal_strlit("/");
    reveal_strlit("./");
    reveal_strlit(".");
    assert(p[0] == root[0]) by {
        assert(p.take(root.len() as int)[0] == root[0]);
    }
    assert(is_prefix("/"@, p) == is_prefix("/"@, root)) by {
        if is_prefix("/"@, p) {
            assert(p.subrange(0, 1)[0] == p[0]);
            assert(root.subrange(0, 1) =~= "/"@);
        }
        if is_prefix("/"@, root) {
            assert(root.subrange(0, 1)[0] == root[0]);
            assert(p.subrange(0, 1) =~= "/"@);
        }
    }
    assert(!(root == "."@ || is_prefix("./"@, root))) by {
        if is_prefix("./"@, root) {
            assert(root.subrange(0, 2)[0] == '.');
        }
    }
    assert(!(p == "."@ || is_prefix("./"@, p))) by {
        if is_prefix("./"@, p) {
            assert(p.subrange(0, 2)[0] == '.');
        }
    }
    let rp = normal_parts(split(root, '/'));
    let pp = normal_parts(split(p, '/'));
    assert(pp == rp + normal_parts(segs));
    assert(pp.take(rp.len() as int) =~= rp);
    assert(pp.skip(rp.len() as int) =~= normal_parts(segs));
    assert(normal_parts(segs) == segs) by {
        lemma_normal_parts_all(segs);
    }
    lemma_join_split(rel, '/');
}

proof fn lemma_split_avoids(s: Seq<char>, c: char, d: char)
    requires
        forall|i: int| 0 <= i < s.len() ==> s[i] != d,
    ensures
        forall|k: int, i: int| 0 <= k < split(s, c).len() && 0 <= i < split(s, c)[k].len() ==> #[trigger] split(s, c)[k][i] != d,
    decreases s.len(),
{
    crate::text::lemma_split_nonempty(s, c);
    if s.len() > 0 {
        lemma_split_avoids(s.drop_last(), c, d);
        crate::text::lemma_split_nonempty(s.drop_last(), c);
        let p = split(s.drop_last(), c);
        assert forall|k: int, i: int| 0 <= k < split(s, c).len() && 0 <= i < split(s, c)[k].len() implies #[trigger] split(s, c)[k][i] != d by {
            if s.last() != c && k == p.len() - 1 {
                if i < p.last().len() {
                    assert(split(s, c)[k][i] == p[k][i]);
                } else {
                    assert(split(s, c)[k][i] == s.last());
                }
            } else if k < p.len() {
                assert(split(s, c)[k] == p[k]);
            }
        }
    }
}

proof fn lemma_slashed_joined(root: Seq<char>, segs: Seq<Seq<char>>, sep: char)
    requires
        sep == '/' || sep == '\\',
        forall|k: int, i: int| 0 <= k < segs.len() && 0 <= i < segs[k].len() ==> #[trigger] segs[k][i] != sep,
    ensures
        slashed(joined_path(root, segs, sep), sep) == joined_path(slashed(root, sep), segs, '/'),
    decreases segs.len(),
{
    if segs.len() > 0 {
        let prev = segs.drop_last();
        lemma_slashed_joined(root, prev, sep);
        let seg = segs.last();
        let acc = joined_path(root, prev, sep);
        let sacc = slashed(acc, sep);
        assert(slashed(seg, sep) =~= seg) by {
            assert forall|i: int| 0 <= i < seg.len() implies seg[i] != sep by {
                assert(segs[segs.len() - 1][i] != sep);
            }
        }
        if seg.len() == 0 || seg == "."@ {
        } else if acc.len() == 0 || acc.last() == '/' || acc.last() == sep {
            assert(slashed(acc + seg, sep) =~= sacc + seg);
        } else {
            assert(sacc.last() != '/');
            assert(slashed(acc.push(sep) + seg, sep) =~= sacc.push('/') + seg);
        }
    }
}

/// Writing a repository-relative path under a root with the platform's
/// separator (`/` or `\`) and reading it back relative to that root gives the
/// path again, provided the root is not empty and does not start with `.`
/// (as an absolute path does not), the path holds no `\` where that is the
/// separator, and none of its segments is empty or `.` (which writing drops).
pub proof fn lemma_rel_path_round_trip(root: Seq<char>, rel: Seq<char>, sep: char)
    requires
        sep == '/' || sep == '\\',
        root.len() >= 1,
        root[0] != '.',
        sep == '\\' ==> forall|i: int| 0 <= i < rel.len() ==> rel[i] != '\\',
        forall|k: int| 0 <= k < split(rel, '/').len() ==> (#[trigger] split(rel, '/')[k]).len() > 0 && split(rel, '/')[k] != "."@,
    ensures
        relative_text(slashed(root, sep), slashed(rel_joined(root, rel, sep), sep)) == Some(rel),
{
    let segs = split(rel, '/');
    lemma_split_pieces(rel, '/');
    if sep == '\\' {
        lemma_split_avoids(rel, '/', '\\');
    }
    lemma_slashed_joined(root, segs, sep);
    let r2 = slashed(root, sep);
    assert(r2.len() >= 1 && r2[0] != '.');
    lemma_rel_round_trip_slash(r2, rel);
}

/// A path that does not lie under the root, component by component, has no
/// relative form.
pub proof fn lemma_rel_outside_root(root: Seq<char>, path: Seq<char>, sep: char)
    requires
        !(normal_parts(split(slashed(root, sep), '/')).len() <= normal_parts(split(slashed(path, sep), '/')).len()
            && normal_parts(split(slashed(path, sep), '/')).take(normal_parts(split(slashed(root, sep), '/')).len() as int)
                == normal_parts(split(slashed(root, sep), '/'))),
    ensures
        relative_text(slashed(root, sep), slashed(path, sep)) is None,
{
}

proof fn lemma_normal_parts_all(pieces: Seq<Seq<char>>)
    requires
        forall|k: int| 0 <= k < pieces.len() ==> (#[trigger] pieces[k]).len() > 0 && pieces[k] != "."@,
    ensures
        normal_parts(pieces) == pieces,
    decreases pieces.len(),
{
    if pieces.len() > 0 {
        lemma_normal_parts_all(pieces.drop_last());
        assert(pieces.drop_last().push(pieces.last()) =~= pieces);
    }
}

} // verus!
