//! JavaScript and TypeScript resolution.
pub mod jsonc;

use vstd::prelude::*;
use crate::model::{AliasAudit, FileId, ReasonView, UnresolvedReason, result_view};
use crate::resolve::javascript::jsonc::{
    array_strings, at_boundary, find_bytes, find_from, find_key, key_end, lemma_after_ascii,
    lemma_boundary, lemma_found, string_array,
};
use vstd::utf8::{decode_utf8, encode_utf8, valid_utf8};
use crate::order::{count_not_before, insert_sorted, stable_sorted, strictly_sorted};
use crate::resolve::javascript::jsonc::{field_bytes, string_field, strip_comments, stripped};
use crate::resolve::{index_id, index_id_cased, FileIndex};
use crate::text::{
    concat_chars, first_some, lemma_first_some_all, lemma_first_some_prefix, lemma_first_some_step,
    ascii_lower, ascii_lowercase, before_either, before_last, chars_eq, chars_of, concat,
    cut_before_either, ends_with, is_suffix, join, join_chars, rfind_char, split, split_chars,
    string_of, find_char, first_index_of, is_prefix, lemma_first_index_of, starts_with, last_piece,
};

verus! {

/// File extensions of source modules, in the order they are tried.
pub open spec fn source_exts() -> Seq<Seq<char>> {
    seq![".ts"@, ".tsx"@, ".mts"@, ".cts"@, ".d.ts"@, ".js"@, ".jsx"@, ".mjs"@, ".cjs"@]
}

/// The source extensions, in the order they are tried.
pub fn source_ext_list() -> (v: Vec<&'static str>)
    ensures
        v@.map_values(|s: &str| s@) == source_exts(),
{
    let v = vec![".ts", ".tsx", ".mts", ".cts", ".d.ts", ".js", ".jsx", ".mjs", ".cjs"];
    assert(v@.map_values(|s: &str| s@) =~= source_exts());
    v
}

/// Extensions of files a bundler imports that are not modules.
pub open spec fn asset_exts() -> Seq<Seq<char>> {
    seq![
        ".css"@, ".scss"@, ".sass"@, ".less"@, ".styl"@, ".svg"@, ".png"@, ".jpg"@, ".jpeg"@,
        ".gif"@, ".webp"@, ".avif"@, ".ico"@, ".bmp"@, ".json"@, ".json5"@, ".yaml"@, ".yml"@,
        ".toml"@, ".txt"@, ".md"@, ".mdx"@, ".wasm"@, ".woff"@, ".woff2"@, ".ttf"@, ".otf"@,
        ".eot"@, ".mp3"@, ".mp4"@, ".webm"@, ".ogg"@, ".wav"@, ".glsl"@, ".frag"@, ".vert"@,
        ".graphql"@, ".gql"@, ".html"@, ".xml"@, ".csv"@, ".pdf"@
    ]
}

fn asset_ext_list() -> (v: Vec<&'static str>)
    ensures
        v@.map_values(|s: &str| s@) == asset_exts(),
{
    let v = vec![
        ".css", ".scss", ".sass", ".less", ".styl", ".svg", ".png", ".jpg", ".jpeg",
        ".gif", ".webp", ".avif", ".ico", ".bmp", ".json", ".json5", ".yaml", ".yml",
        ".toml", ".txt", ".md", ".mdx", ".wasm", ".woff", ".woff2", ".ttf", ".otf",
        ".eot", ".mp3", ".mp4", ".webm", ".ogg", ".wav", ".glsl", ".frag", ".vert",
        ".graphql", ".gql", ".html", ".xml", ".csv", ".pdf",
    ];
    assert(v@.map_values(|s: &str| s@) =~= asset_exts());
    v
}

/// Names of the files a directory import resolves to, in the order tried.
pub open spec fn index_files() -> Seq<Seq<char>> {
    seq![
        "index.ts"@, "index.tsx"@, "index.mts"@, "index.cts"@, "index.d.ts"@, "index.js"@,
        "index.jsx"@, "index.mjs"@, "index.cjs"@
    ]
}

fn index_file_list() -> (v: Vec<&'static str>)
    ensures
        v@.map_values(|s: &str| s@) == index_files(),
{
    let v = vec![
        "index.ts", "index.tsx", "index.mts", "index.cts", "index.d.ts", "index.js",
        "index.jsx", "index.mjs", "index.cjs",
    ];
    assert(v@.map_values(|s: &str| s@) =~= index_files());
    v
}

/// The index of the first entry of `exts` that `s` ends with.
pub open spec fn first_suffix(exts: Seq<Seq<char>>, s: Seq<char>) -> Option<int>
    decreases exts.len(),
{
    if exts.len() == 0 {
        None
    } else {
        match first_suffix(exts.drop_last(), s) {
            Some(i) => Some(i),
            None => if is_suffix(exts.last(), s) { Some(exts.len() - 1) } else { None },
        }
    }
}

/// The asset extension of a specifier, looked for before any `?` or `#` and
/// ignoring ASCII case.
pub open spec fn asset_of(specifier: Seq<char>) -> Option<Seq<char>> {
    match first_suffix(asset_exts(), ascii_lower(before_either(specifier, '?', '#'))) {
        Some(i) => Some(asset_exts()[i]),
        None => None,
    }
}

/// A prefix match is the first match of the whole list.
proof fn lemma_first_suffix_prefix(exts: Seq<Seq<char>>, s: Seq<char>, k: int)
    requires
        0 <= k <= exts.len(),
        first_suffix(exts.take(k), s) is Some,
    ensures
        first_suffix(exts, s) == first_suffix(exts.take(k), s),
    decreases exts.len() - k,
{
    if k < exts.len() {
        assert(exts.take(k + 1).drop_last() == exts.take(k));
        lemma_first_suffix_prefix(exts, s, k + 1);
    } else {
        assert(exts.take(k) == exts);
    }
}

/// The extension (with its dot) that marks `specifier` as an asset import.
pub fn asset_extension(specifier: &str) -> (r: Option<&'static str>)
    ensures
        match r {
            Some(e) => asset_of(specifier@) == Some(e@),
            None => asset_of(specifier@) is None,
        },
{
    let s = chars_of(specifier);
    let cut = cut_before_either(s.as_slice(), '?', '#');
    let base = ascii_lowercase(cut.as_slice());
    let exts = asset_ext_list();
    let ghost es = exts@.map_values(|x: &str| x@);
    let mut i: usize = 0;
    while i < exts.len()
        invariant
            i <= exts@.len(),
            es == exts@.map_values(|x: &str| x@),
            es == asset_exts(),
            base@ == ascii_lower(before_either(specifier@, '?', '#')),
            first_suffix(es.take(i as int), base@) is None,
        decreases exts@.len() - i,
    {
        assert(es.take(i + 1).drop_last() == es.take(i as int));
        let e = chars_of(exts[i]);
        if ends_with(base.as_slice(), e.as_slice()) {
            assert(es.take(i + 1).last() == exts@[i as int]@);
            proof {
                lemma_first_suffix_prefix(es, base@, i + 1);
            }
            return Some(exts[i]);
        }
        i += 1;
    }
    assert(es.take(i as int) == es);
    None
}

/// The pieces that are not empty.
pub open spec fn non_empty(parts: Seq<Seq<char>>) -> Seq<Seq<char>>
    decreases parts.len(),
{
    if parts.len() == 0 {
        parts
    } else {
        let prev = non_empty(parts.drop_last());
        if parts.last().len() > 0 {
            prev.push(parts.last())
        } else {
            prev
        }
    }
}

/// Applies path segments to a stack of directories: empty and `.` segments
/// do nothing, `..` pops (if there is anything to pop), others push.
pub open spec fn walk_segments(parts: Seq<Seq<char>>, segs: Seq<Seq<char>>) -> Seq<Seq<char>>
    decreases segs.len(),
{
    if segs.len() == 0 {
        parts
    } else {
        let prev = walk_segments(parts, segs.drop_last());
        let seg = segs.last();
        if seg.len() == 0 || seg == seq!['.'] {
            prev
        } else if seg == seq!['.', '.'] {
            if prev.len() > 0 {
                prev.drop_last()
            } else {
                prev
            }
        } else {
            prev.push(seg)
        }
    }
}

/// `rel` taken from directory `base`, with `.` and `..` applied.
pub open spec fn joined_rel(base: Seq<char>, rel: Seq<char>) -> Seq<char> {
    join(walk_segments(non_empty(split(base, '/')), split(rel, '/')), '/')
}

/// Joins a relative path onto a directory, normalising `.` and `..`; a `..`
/// above the top is dropped.
pub fn join_rel(base_dir: &str, rel: &str) -> (r: String)
    ensures
        r@ == joined_rel(base_dir@, rel@),
{
    let b = chars_of(base_dir);
    let r = chars_of(rel);
    let out = join_rel_chars(b.as_slice(), r.as_slice());
    string_of(out.as_slice())
}

pub fn join_rel_chars(base: &[char], rel: &[char]) -> (r: Vec<char>)
    ensures
        r@ == joined_rel(base@, rel@),
{
    let pieces = split_chars(base, '/');
    let ghost bp = split(base@, '/');
    let mut parts: Vec<Vec<char>> = Vec::new();
    let mut i: usize = 0;
    while i < pieces.len()
        invariant
            i <= pieces@.len(),
            pieces@.len() == bp.len(),
            forall|k: int| 0 <= k < pieces@.len() ==> #[trigger] pieces@[k]@ == bp[k],
            parts@.map_values(|p: Vec<char>| p@) == non_empty(bp.take(i as int)),
        decreases pieces@.len() - i,
    {
        assert(bp.take(i + 1).drop_last() == bp.take(i as int));
        assert(bp.take(i + 1).last() == pieces@[i as int]@);
        if pieces[i].len() > 0 {
            parts.push(vstd::slice::slice_to_vec(pieces[i].as_slice()));
            assert(parts@.map_values(|p: Vec<char>| p@) =~= non_empty(bp.take(i + 1)));
        }
        i += 1;
    }
    assert(bp.take(i as int) == bp);
    let segs = split_chars(rel, '/');
    let ghost sp = split(rel@, '/');
    let ghost start = non_empty(bp);
    let mut j: usize = 0;
    while j < segs.len()
        invariant
            j <= segs@.len(),
            segs@.len() == sp.len(),
            forall|k: int| 0 <= k < segs@.len() ==> #[trigger] segs@[k]@ == sp[k],
            parts@.map_values(|p: Vec<char>| p@) == walk_segments(start, sp.take(j as int)),
        decreases segs@.len() - j,
    {
        assert(sp.take(j + 1).drop_last() == sp.take(j as int));
        assert(sp.take(j + 1).last() == segs@[j as int]@);
        let seg = &segs[j];
        let n = seg.len();
        if n == 0 || (n == 1 && seg[0] == '.') {
            assert(n == 1 ==> seg@ =~= seq!['.']);
        } else if n == 2 && seg[0] == '.' && seg[1] == '.' {
            assert(seg@ =~= seq!['.', '.']);
            if parts.len() > 0 {
                parts.pop();
                assert(parts@.map_values(|p: Vec<char>| p@) =~= walk_segments(start, sp.take(j + 1)));
            }
        } else {
            assert(seg@ != seq!['.']);
            assert(seg@ != seq!['.', '.']);
            parts.push(vstd::slice::slice_to_vec(seg.as_slice()));
            assert(parts@.map_values(|p: Vec<char>| p@) =~= walk_segments(start, sp.take(j + 1)));
        }
        j += 1;
    }
    assert(sp.take(j as int) == sp);
    join_chars(&parts, '/')
}

/// The directory part of a `/`-separated path (empty for a top-level file).
pub(crate) fn parent_dir(path: &[char]) -> (r: Vec<char>)
    ensures
        r@ == before_last(path@, '/'),
{
    proof {
        crate::text::lemma_last_index_of(path@, '/');
    }
    match rfind_char(path, '/') {
        Some(i) => vstd::slice::slice_to_vec(vstd::slice::slice_subrange(path, 0, i)),
        None => Vec::new(),
    }
}

/// `f` inside directory `c` (or `f` itself when `c` is empty).
pub open spec fn index_path_of(c: Seq<char>, f: Seq<char>) -> Seq<char> {
    if c.len() == 0 {
        f
    } else {
        c.push('/') + f
    }
}

/// The paths a candidate may name: itself, with each source extension, and
/// each index file inside it, in the order they are tried.
pub open spec fn candidate_forms(c: Seq<char>) -> Seq<Seq<char>> {
    seq![c] + source_exts().map_values(|e: Seq<char>| c + e) + index_files().map_values(
        |f: Seq<char>| index_path_of(c, f),
    )
}

/// The file a candidate resolves to: the first form that is a scanned path,
/// else the first that matches one up to letter case.
pub open spec fn lookup(paths: Seq<Seq<char>>, c: Seq<char>) -> Option<(FileId, bool)> {
    let forms = candidate_forms(c);
    match first_some(forms.map_values(|f: Seq<char>| index_id(paths, f))) {
        Some(id) => Some((id, true)),
        None => first_some(forms.map_values(|f: Seq<char>| index_id_cased(paths, f))),
    }
}

/// The first candidate that resolves.
pub open spec fn first_hit(paths: Seq<Seq<char>>, cands: Seq<Seq<char>>) -> Option<(FileId, bool)> {
    first_some(cands.map_values(|c: Seq<char>| lookup(paths, c)))
}

fn index_path(c: &[char], f: &[char]) -> (r: Vec<char>)
    ensures
        r@ == index_path_of(c@, f@),
{
    if c.len() == 0 {
        vstd::slice::slice_to_vec(f)
    } else {
        let mut d = vstd::slice::slice_to_vec(c);
        d.push('/');
        concat_chars(d.as_slice(), f)
    }
}

fn candidate_form_list(c: &[char]) -> (v: Vec<Vec<char>>)
    ensures
        v@.map_values(|x: Vec<char>| x@) == candidate_forms(c@),
{
    let mut v: Vec<Vec<char>> = Vec::new();
    v.push(vstd::slice::slice_to_vec(c));
    let exts = source_ext_list();
    let ghost first = seq![c@];
    let mut i: usize = 0;
    while i < exts.len()
        invariant
            i <= exts@.len(),
            exts@.map_values(|s: &str| s@) == source_exts(),
            v@.map_values(|x: Vec<char>| x@) == first + source_exts().take(i as int).map_values(|e: Seq<char>| c@ + e),
        decreases exts@.len() - i,
    {
        let e = chars_of(exts[i]);
        assert(e@ == source_exts()[i as int]);
        let ghost before = v@;
        v.push(concat_chars(c, e.as_slice()));
        assert(v@.map_values(|x: Vec<char>| x@) =~= before.map_values(|x: Vec<char>| x@).push(c@ + e@));
        assert(source_exts().take(i + 1) =~= source_exts().take(i as int).push(source_exts()[i as int]));
        i += 1;
        assert(v@.map_values(|x: Vec<char>| x@) =~= first + source_exts().take(i as int).map_values(|e: Seq<char>| c@ + e));
    }
    assert(source_exts().take(i as int) == source_exts());
    let ghost second = v@.map_values(|x: Vec<char>| x@);
    let files = index_file_list();
    let mut j: usize = 0;
    while j < files.len()
        invariant
            j <= files@.len(),
            files@.map_values(|s: &str| s@) == index_files(),
            v@.map_values(|x: Vec<char>| x@) == second + index_files().take(j as int).map_values(|f: Seq<char>| index_path_of(c@, f)),
        decreases files@.len() - j,
    {
        let f = chars_of(files[j]);
        assert(f@ == index_files()[j as int]);
        let ghost before = v@;
        v.push(index_path(c, f.as_slice()));
        assert(v@.map_values(|x: Vec<char>| x@) =~= before.map_values(|x: Vec<char>| x@).push(index_path_of(c@, f@)));
        assert(index_files().take(j + 1) =~= index_files().take(j as int).push(index_files()[j as int]));
        j += 1;
        assert(v@.map_values(|x: Vec<char>| x@) =~= second + index_files().take(j as int).map_values(|f: Seq<char>| index_path_of(c@, f)));
    }
    assert(index_files().take(j as int) == index_files());
    assert(v@.map_values(|x: Vec<char>| x@) =~= candidate_forms(c@));
    v
}

/// The file a candidate path resolves to, trying extensions and index files,
/// exactly first and then ignoring letter case.
fn try_candidate_cased(c: &[char], index: &FileIndex) -> (r: Option<(FileId, bool)>)
    requires
        index.wf(),
    ensures
        r == lookup(index.path_texts(), c@),
{
    let forms = candidate_form_list(c);
    let ghost fs = forms@.map_values(|x: Vec<char>| x@);
    let ghost paths = index.path_texts();
    let ghost ex = fs.map_values(|f: Seq<char>| index_id(paths, f));
    assert(fs == candidate_forms(c@));
    let mut i: usize = 0;
    while i < forms.len()
        invariant
            index.wf(),
            paths == index.path_texts(),
            i <= forms@.len(),
            fs == forms@.map_values(|x: Vec<char>| x@),
            ex == fs.map_values(|f: Seq<char>| index_id(paths, f)),
            first_some(ex.take(i as int)) is None,
            fs == candidate_forms(c@),
        decreases forms@.len() - i,
    {
        let s = string_of(forms[i].as_slice());
        let got = index.id(s.as_str());
        assert(ex[i as int] == got);
        proof {
            lemma_first_some_step(ex, i as int);
        }
        if let Some(id) = got {
            proof {
                lemma_first_some_prefix(ex, i + 1);
            }
            return Some((id, true));
        }
        i += 1;
    }
    proof {
        lemma_first_some_all(ex);
    }
    let ghost ca = fs.map_values(|f: Seq<char>| index_id_cased(paths, f));
    let mut k: usize = 0;
    while k < forms.len()
        invariant
            index.wf(),
            paths == index.path_texts(),
            k <= forms@.len(),
            fs == forms@.map_values(|x: Vec<char>| x@),
            ca == fs.map_values(|f: Seq<char>| index_id_cased(paths, f)),
            first_some(ex) is None,
            ex == fs.map_values(|f: Seq<char>| index_id(paths, f)),
            first_some(ca.take(k as int)) is None,
            fs == candidate_forms(c@),
        decreases forms@.len() - k,
    {
        let s = string_of(forms[k].as_slice());
        let got = index.id_case_insensitive(s.as_str());
        assert(ca[k as int] == got);
        proof {
            lemma_first_some_step(ca, k as int);
        }
        if got.is_some() {
            proof {
                lemma_first_some_prefix(ca, k + 1);
            }
            return got;
        }
        k += 1;
    }
    proof {
        lemma_first_some_all(ca);
    }
    None
}

/// A `paths` entry of a tsconfig: `prefix*suffix` (or just `prefix` when there
/// is no wildcard) mapped to target patterns, already joined onto the base dir.
#[derive(Debug, Clone, PartialEq, Eq)]
pub struct PathAlias {
    pub prefix: String,
    pub suffix: String,
    pub has_wildcard: bool,
    pub targets: Vec<String>,
    pub source: String,
    pub pattern: String,
}

/// What the repository's configuration adds to resolution: path aliases
/// (longest prefix first), base URLs, and workspace packages by name.
#[derive(Debug, Clone)]
pub struct JsProject {
    pub aliases: Vec<PathAlias>,
    pub base_urls: Vec<String>,
    pub workspace_packages: Vec<(String, String)>,
}

impl Default for JsProject {
    fn default() -> (r: JsProject)
        ensures
            r.aliases@.len() == 0,
            r.base_urls@.len() == 0,
            r.workspace_packages@.len() == 0,
    {
        JsProject { aliases: Vec::new(), base_urls: Vec::new(), workspace_packages: Vec::new() }
    }
}

/// The alias applies to `s`: with a wildcard, `s` starts with the prefix and
/// ends with the suffix without the two overlapping; without, `s` is the prefix.
pub open spec fn alias_applies(a: PathAlias, s: Seq<char>) -> bool {
    if a.has_wildcard {
        is_prefix(a.prefix@, s) && is_suffix(a.suffix@, s) && a.prefix@.len() + a.suffix@.len() <= s.len()
    } else {
        s == a.prefix@
    }
}

/// What the wildcard stands for in `s`.
pub open spec fn star_of(a: PathAlias, s: Seq<char>) -> Seq<char> {
    s.subrange(a.prefix@.len() as int, s.len() - a.suffix@.len())
}

/// `t` with its first `*` replaced by `star`.
pub open spec fn replace_first_star(t: Seq<char>, star: Seq<char>) -> Seq<char> {
    match first_index_of(t, '*') {
        Some(k) => t.take(k) + star + t.skip(k + 1),
        None => t,
    }
}

/// The candidate paths an applying alias gives for `s`, in target order.
pub open spec fn alias_candidates(a: PathAlias, s: Seq<char>) -> Seq<Seq<char>> {
    a.targets@.map_values(
        |t: String|
            if a.has_wildcard {
                replace_first_star(t@, star_of(a, s))
            } else {
                t@
            },
    )
}

/// The index of the first alias that applies to `s`.
pub open spec fn first_alias(aliases: Seq<PathAlias>, s: Seq<char>) -> Option<int> {
    first_some(Seq::new(aliases.len(), |i: int| if alias_applies(aliases[i], s) { Some(i) } else { None }))
}

/// The candidates of every applying alias, in alias order.
pub open spec fn all_alias_candidates(aliases: Seq<PathAlias>, s: Seq<char>) -> Seq<Seq<char>>
    decreases aliases.len(),
{
    if aliases.len() == 0 {
        Seq::<Seq<char>>::empty()
    } else {
        all_alias_candidates(aliases.drop_last(), s) + if alias_applies(aliases.last(), s) {
            alias_candidates(aliases.last(), s)
        } else {
            Seq::<Seq<char>>::empty()
        }
    }
}

/// The candidate a workspace package gives for `s`: its directory when `s`
/// names it, a path inside it when `s` is `name/...`.
pub open spec fn package_candidate(pkg: (String, String), s: Seq<char>) -> Option<Seq<char>> {
    if s == pkg.0@ {
        Some(pkg.1@)
    } else if is_prefix(pkg.0@.push('/'), s) {
        Some(joined_rel(pkg.1@, s.skip(pkg.0@.len() + 1 as int)))
    } else {
        None
    }
}

/// The candidates of all workspace packages, in order.
pub open spec fn package_candidates(pkgs: Seq<(String, String)>, s: Seq<char>) -> Seq<Seq<char>>
    decreases pkgs.len(),
{
    if pkgs.len() == 0 {
        Seq::<Seq<char>>::empty()
    } else {
        let prev = package_candidates(pkgs.drop_last(), s);
        match package_candidate(pkgs.last(), s) {
            Some(c) => prev.push(c),
            None => prev,
        }
    }
}

/// `s` taken from each base URL.
pub open spec fn base_candidates(bases: Seq<String>, s: Seq<char>) -> Seq<Seq<char>> {
    bases.map_values(|b: String| joined_rel(b@, s))
}

/// `s` starts with `./` or `../`.
pub open spec fn is_dot_relative(s: Seq<char>) -> bool {
    is_prefix(seq!['.', '/'], s) || is_prefix(seq!['.', '.', '/'], s)
}

/// Every path an import of `s` from `from` could name, before any lookup.
pub open spec fn candidates_of(from: Seq<char>, s: Seq<char>, p: JsProject) -> Seq<Seq<char>> {
    if s.len() == 0 {
        Seq::<Seq<char>>::empty()
    } else if is_dot_relative(s) {
        seq![joined_rel(before_last(from, '/'), s)]
    } else if s[0] == '/' {
        seq![s.drop_first()]
    } else {
        all_alias_candidates(p.aliases@, s) + package_candidates(p.workspace_packages@, s)
            + base_candidates(p.base_urls@, s)
    }
}

/// The alias applies to `specifier` (its usage is counted by this).
fn matches_alias(alias: &PathAlias, specifier: &[char]) -> (r: bool)
    ensures
        r == alias_applies(*alias, specifier@),
{
    let prefix = chars_of(alias.prefix.as_str());
    if alias.has_wildcard {
        let suffix = chars_of(alias.suffix.as_str());
        specifier.len() >= prefix.len() && specifier.len() - prefix.len() >= suffix.len() && starts_with(specifier, prefix.as_slice())
            && ends_with(specifier, suffix.as_slice())
    } else {
        chars_eq(specifier, prefix.as_slice())
    }
}

fn replace_star(t: &[char], star: &[char]) -> (r: Vec<char>)
    ensures
        r@ == replace_first_star(t@, star@),
{
    proof {
        lemma_first_index_of(t@, '*');
    }
    match find_char(t, '*') {
        Some(k) => {
            let n = t.len();
            assert(k < n);
            let head = concat_chars(vstd::slice::slice_subrange(t, 0, k), star);
            concat_chars(head.as_slice(), vstd::slice::slice_subrange(t, k + 1, n))
        },
        None => vstd::slice::slice_to_vec(t),
    }
}

/// The candidates of an alias that applies to `s`.
fn alias_candidate_list(a: &PathAlias, s: &[char]) -> (r: Vec<Vec<char>>)
    requires
        alias_applies(*a, s@),
    ensures
        r@.map_values(|x: Vec<char>| x@) == alias_candidates(*a, s@),
{
    let mut out: Vec<Vec<char>> = Vec::new();
    let plen = chars_of(a.prefix.as_str()).len();
    let slen = chars_of(a.suffix.as_str()).len();
    let mut star: Vec<char> = Vec::new();
    if a.has_wildcard {
        star = vstd::slice::slice_to_vec(vstd::slice::slice_subrange(s, plen, s.len() - slen));
    }
    let mut i: usize = 0;
    while i < a.targets.len()
        invariant
            i <= a.targets@.len(),
            alias_applies(*a, s@),
            a.has_wildcard ==> star@ == star_of(*a, s@),
            out@.map_values(|x: Vec<char>| x@) == alias_candidates(*a, s@).take(i as int),
        decreases a.targets@.len() - i,
    {
        let t = chars_of(a.targets[i].as_str());
        let c = if a.has_wildcard {
            replace_star(t.as_slice(), star.as_slice())
        } else {
            t
        };
        let ghost before = out@;
        out.push(c);
        assert(out@.map_values(|x: Vec<char>| x@) =~= before.map_values(|x: Vec<char>| x@).push(c@));
        assert(alias_candidates(*a, s@).take(i + 1) =~= alias_candidates(*a, s@).take(i as int).push(alias_candidates(*a, s@)[i as int]));
        i += 1;
    }
    assert(alias_candidates(*a, s@).take(i as int) =~= alias_candidates(*a, s@));
    out
}

/// Appends copies of the elements of `more`.
fn append_all(out: &mut Vec<Vec<char>>, more: &Vec<Vec<char>>)
    ensures
        final(out)@.map_values(|x: Vec<char>| x@) == old(out)@.map_values(|x: Vec<char>| x@) + more@.map_values(|x: Vec<char>| x@),
{
    let ghost start = out@.map_values(|x: Vec<char>| x@);
    let ghost all = more@.map_values(|x: Vec<char>| x@);
    let mut i: usize = 0;
    while i < more.len()
        invariant
            i <= more@.len(),
            all == more@.map_values(|x: Vec<char>| x@),
            out@.map_values(|x: Vec<char>| x@) == start + all.take(i as int),
        decreases more@.len() - i,
    {
        let ghost before = out@;
        out.push(vstd::slice::slice_to_vec(more[i].as_slice()));
        assert(out@.map_values(|x: Vec<char>| x@) =~= before.map_values(|x: Vec<char>| x@).push(all[i as int]));
        assert(all.take(i + 1) =~= all.take(i as int).push(all[i as int]));
        i += 1;
    }
    assert(all.take(i as int) =~= all);
}

/// The candidate one workspace package gives.
pub(crate) fn package_candidate_of(pkg: &(String, String), s: &[char]) -> (r: Option<Vec<char>>)
    ensures
        match r {
            Some(c) => package_candidate(*pkg, s@) == Some(c@),
            None => package_candidate(*pkg, s@) is None,
        },
{
    let name = chars_of(pkg.0.as_str());
    let dir = chars_of(pkg.1.as_str());
    if chars_eq(s, name.as_slice()) {
        return Some(dir);
    }
    let mut with_slash = vstd::slice::slice_to_vec(name.as_slice());
    with_slash.push('/');
    if starts_with(s, with_slash.as_slice()) {
        let sub = vstd::slice::slice_subrange(s, with_slash.len(), s.len());
        assert(sub@ =~= s@.skip(name@.len() + 1 as int));
        Some(join_rel_chars(dir.as_slice(), sub))
    } else {
        None
    }
}

fn package_candidate_list(pkgs: &Vec<(String, String)>, s: &[char]) -> (r: Vec<Vec<char>>)
    ensures
        r@.map_values(|x: Vec<char>| x@) == package_candidates(pkgs@, s@),
{
    let mut out: Vec<Vec<char>> = Vec::new();
    let mut i: usize = 0;
    while i < pkgs.len()
        invariant
            i <= pkgs@.len(),
            out@.map_values(|x: Vec<char>| x@) == package_candidates(pkgs@.take(i as int), s@),
        decreases pkgs@.len() - i,
    {
        assert(pkgs@.take(i + 1).drop_last() == pkgs@.take(i as int));
        match package_candidate_of(&pkgs[i], s) {
            Some(c) => {
                let ghost before = out@;
                out.push(c);
                assert(out@.map_values(|x: Vec<char>| x@) =~= before.map_values(|x: Vec<char>| x@).push(c@));
            },
            None => {},
        }
        i += 1;
    }
    assert(pkgs@.take(i as int) == pkgs@);
    out
}

fn base_candidate_list(bases: &Vec<String>, s: &[char]) -> (r: Vec<Vec<char>>)
    ensures
        r@.map_values(|x: Vec<char>| x@) == base_candidates(bases@, s@),
{
    let mut out: Vec<Vec<char>> = Vec::new();
    let mut i: usize = 0;
    while i < bases.len()
        invariant
            i <= bases@.len(),
            out@.map_values(|x: Vec<char>| x@) == base_candidates(bases@, s@).take(i as int),
        decreases bases@.len() - i,
    {
        let b = chars_of(bases[i].as_str());
        let c = join_rel_chars(b.as_slice(), s);
        let ghost before = out@;
        out.push(c);
        assert(out@.map_values(|x: Vec<char>| x@) =~= before.map_values(|x: Vec<char>| x@).push(c@));
        assert(base_candidates(bases@, s@).take(i + 1) =~= base_candidates(bases@, s@).take(i as int).push(base_candidates(bases@, s@)[i as int]));
        i += 1;
    }
    assert(base_candidates(bases@, s@).take(i as int) =~= base_candidates(bases@, s@));
    out
}

fn all_alias_candidate_list(aliases: &Vec<PathAlias>, s: &[char]) -> (r: Vec<Vec<char>>)
    ensures
        r@.map_values(|x: Vec<char>| x@) == all_alias_candidates(aliases@, s@),
{
    let mut out: Vec<Vec<char>> = Vec::new();
    let mut i: usize = 0;
    while i < aliases.len()
        invariant
            i <= aliases@.len(),
            out@.map_values(|x: Vec<char>| x@) == all_alias_candidates(aliases@.take(i as int), s@),
        decreases aliases@.len() - i,
    {
        assert(aliases@.take(i + 1).drop_last() == aliases@.take(i as int));
        if matches_alias(&aliases[i], s) {
            let more = alias_candidate_list(&aliases[i], s);
            append_all(&mut out, &more);
        } else {
            assert(all_alias_candidates(aliases@.take(i + 1), s@) =~= all_alias_candidates(aliases@.take(i as int), s@));
        }
        i += 1;
    }
    assert(aliases@.take(i as int) == aliases@);
    out
}

/// Every path an import of `specifier` written in `from_path` could name, in
/// the order resolution tries them (every applying alias included), before
/// extensions and index files are added.
pub fn candidate_paths(from_path: &str, specifier: &str, project: &JsProject) -> (r: Vec<String>)
    ensures
        r@.map_values(|x: String| x@) == candidates_of(from_path@, specifier@, *project),
{
    let s = chars_of(specifier);
    let cands = candidate_list(from_path, s.as_slice(), project);
    let mut out: Vec<String> = Vec::new();
    let mut i: usize = 0;
    while i < cands.len()
        invariant
            i <= cands@.len(),
            out@.map_values(|x: String| x@) == cands@.map_values(|x: Vec<char>| x@).take(i as int),
        decreases cands@.len() - i,
    {
        let ghost before = out@;
        let x = string_of(cands[i].as_slice());
        out.push(x);
        assert(out@.map_values(|x: String| x@) =~= before.map_values(|x: String| x@).push(x@));
        assert(cands@.map_values(|x: Vec<char>| x@).take(i + 1) =~= cands@.map_values(|x: Vec<char>| x@).take(i as int).push(cands@[i as int]@));
        i += 1;
    }
    assert(cands@.map_values(|x: Vec<char>| x@).take(i as int) =~= cands@.map_values(|x: Vec<char>| x@));
    out
}

pub(crate) fn is_dot_relative_exec(s: &[char]) -> (r: bool)
    ensures
        r == is_dot_relative(s@),
{
    let a = vec!['.', '/'];
    let b = vec!['.', '.', '/'];
    assert(a@ =~= seq!['.', '/']);
    assert(b@ =~= seq!['.', '.', '/']);
    starts_with(s, a.as_slice()) || starts_with(s, b.as_slice())
}

fn candidate_list(from_path: &str, s: &[char], project: &JsProject) -> (r: Vec<Vec<char>>)
    ensures
        r@.map_values(|x: Vec<char>| x@) == candidates_of(from_path@, s@, *project),
{
    let mut out: Vec<Vec<char>> = Vec::new();
    if s.len() == 0 {
        assert(out@.map_values(|x: Vec<char>| x@) =~= Seq::<Seq<char>>::empty());
        return out;
    }
    if is_dot_relative_exec(s) {
        let from = chars_of(from_path);
        let dir = parent_dir(from.as_slice());
        out.push(join_rel_chars(dir.as_slice(), s));
        assert(out@.map_values(|x: Vec<char>| x@) =~= candidates_of(from_path@, s@, *project));
        return out;
    }
    if s[0] == '/' {
        out.push(vstd::slice::slice_to_vec(vstd::slice::slice_subrange(s, 1, s.len())));
        assert(out@.map_values(|x: Vec<char>| x@) =~= candidates_of(from_path@, s@, *project));
        return out;
    }
    let a = all_alias_candidate_list(&project.aliases, s);
    let p = package_candidate_list(&project.workspace_packages, s);
    let b = base_candidate_list(&project.base_urls, s);
    append_all(&mut out, &a);
    append_all(&mut out, &p);
    append_all(&mut out, &b);
    assert(out@.map_values(|x: Vec<char>| x@) =~= candidates_of(from_path@, s@, *project));
    out
}

/// `s` without its leading `c`s.
pub open spec fn trim_leading(s: Seq<char>, c: char) -> Seq<char>
    decreases s.len(),
{
    if s.len() > 0 && s[0] == c {
        trim_leading(s.drop_first(), c)
    } else {
        s
    }
}

/// The package an outside specifier names: `@scope/name` for a scoped one,
/// else its first segment.
pub open spec fn package_name(s: Seq<char>) -> Seq<char> {
    if s.len() > 0 && s[0] == '@' {
        let parts = split(s.drop_first(), '/');
        let first = seq!['@'] + parts[0];
        if parts.len() >= 2 {
            if first.len() > 1 {
                first.push('/') + parts[1]
            } else {
                first + parts[1]
            }
        } else {
            first
        }
    } else {
        split(s, '/')[0]
    }
}

/// The hit, or the error when there is none.
pub open spec fn hit_or(h: Option<(FileId, bool)>, e: ReasonView) -> Result<(FileId, bool), ReasonView> {
    match h {
        Some(x) => Ok(x),
        None => Err(e),
    }
}

/// How an import of `s` written in `from` resolves against the scanned paths:
/// an empty specifier names no file; an asset is reported with its extension
/// (dot dropped); a relative or rooted one is looked up as a path; otherwise
/// the first applying alias decides, then workspace packages and base URLs are
/// tried, and what is left is an outside package.
pub open spec fn js_outcome(paths: Seq<Seq<char>>, from: Seq<char>, s: Seq<char>, p: JsProject) -> Result<(FileId, bool), ReasonView> {
    if s.len() == 0 {
        Err(ReasonView::NoSuchFile(s))
    } else if asset_of(s) is Some {
        Err(ReasonView::Asset(trim_leading(asset_of(s).unwrap(), '.')))
    } else if is_dot_relative(s) || s == seq!['.'] || s == seq!['.', '.'] {
        hit_or(lookup(paths, joined_rel(before_last(from, '/'), s)), ReasonView::NoSuchFile(s))
    } else if s[0] == '/' {
        hit_or(lookup(paths, s.drop_first()), ReasonView::NoSuchFile(s))
    } else {
        match first_alias(p.aliases@, s) {
            Some(i) => hit_or(first_hit(paths, alias_candidates(p.aliases@[i], s)), ReasonView::UnmatchedAlias(s)),
            None => hit_or(
                first_hit(paths, package_candidates(p.workspace_packages@, s) + base_candidates(p.base_urls@, s)),
                ReasonView::External(package_name(s)),
            ),
        }
    }
}

/// The first candidate that resolves.
fn first_hit_in(cands: &Vec<Vec<char>>, index: &FileIndex) -> (r: Option<(FileId, bool)>)
    requires
        index.wf(),
    ensures
        r == first_hit(index.path_texts(), cands@.map_values(|x: Vec<char>| x@)),
{
    let ghost cs = cands@.map_values(|x: Vec<char>| x@);
    let ghost hits = cs.map_values(|c: Seq<char>| lookup(index.path_texts(), c));
    let mut i: usize = 0;
    while i < cands.len()
        invariant
            index.wf(),
            i <= cands@.len(),
            cs == cands@.map_values(|x: Vec<char>| x@),
            hits == cs.map_values(|c: Seq<char>| lookup(index.path_texts(), c)),
            first_some(hits.take(i as int)) is None,
        decreases cands@.len() - i,
    {
        let got = try_candidate_cased(cands[i].as_slice(), index);
        assert(hits[i as int] == got);
        proof {
            lemma_first_some_step(hits, i as int);
        }
        if got.is_some() {
            proof {
                lemma_first_some_prefix(hits, i + 1);
            }
            return got;
        }
        i += 1;
    }
    proof {
        lemma_first_some_all(hits);
    }
    None
}

/// The index of the first alias applying to `s`.
fn first_alias_in(aliases: &Vec<PathAlias>, s: &[char]) -> (r: Option<usize>)
    ensures
        match r {
            Some(i) => first_alias(aliases@, s@) == Some(i as int),
            None => first_alias(aliases@, s@) is None,
        },
{
    let ghost marks = Seq::new(aliases@.len(), |i: int| if alias_applies(aliases@[i], s@) { Some(i) } else { None });
    let mut i: usize = 0;
    while i < aliases.len()
        invariant
            i <= aliases@.len(),
            marks == Seq::new(aliases@.len(), |i: int| if alias_applies(aliases@[i], s@) { Some(i) } else { None }),
            first_some(marks.take(i as int)) is None,
        decreases aliases@.len() - i,
    {
        let m = matches_alias(&aliases[i], s);
        proof {
            lemma_first_some_step(marks, i as int);
        }
        if m {
            proof {
                lemma_first_some_prefix(marks, i + 1);
            }
            return Some(i);
        }
        i += 1;
    }
    proof {
        lemma_first_some_all(marks);
    }
    None
}

fn trim_leading_dots(s: &[char]) -> (r: Vec<char>)
    ensures
        r@ == trim_leading(s@, '.'),
{
    let mut i: usize = 0;
    assert(s@.skip(0) =~= s@);
    while i < s.len() && s[i] == '.'
        invariant
            i <= s.len(),
            trim_leading(s@, '.') == trim_leading(s@.skip(i as int), '.'),
        decreases s.len() - i,
    {
        assert(s@.skip(i as int).drop_first() =~= s@.skip(i + 1));
        i += 1;
    }
    let r = vstd::slice::slice_to_vec(vstd::slice::slice_subrange(s, i, s.len()));
    assert(r@ =~= s@.skip(i as int));
    r
}

fn package_name_of(s: &[char]) -> (r: Vec<char>)
    ensures
        r@ == package_name(s@),
{
    if s.len() > 0 && s[0] == '@' {
        let rest = vstd::slice::slice_subrange(s, 1, s.len());
        assert(rest@ =~= s@.drop_first());
        let parts = split_chars(rest, '/');
        proof {
            crate::text::lemma_split_nonempty(rest@, '/');
        }
        let mut acc: Vec<char> = Vec::new();
        acc.push('@');
        let first = concat_chars(acc.as_slice(), parts[0].as_slice());
        if parts.len() >= 2 {
            if first.len() > 1 {
                let mut f = first;
                f.push('/');
                concat_chars(f.as_slice(), parts[1].as_slice())
            } else {
                concat_chars(first.as_slice(), parts[1].as_slice())
            }
        } else {
            first
        }
    } else {
        let parts = split_chars(s, '/');
        proof {
            crate::text::lemma_split_nonempty(s@, '/');
        }
        vstd::slice::slice_to_vec(parts[0].as_slice())
    }
}

/// Resolves `specifier`, written in `from_path`, to a scanned file; the flag
/// is `false` when the file matched only up to letter case.
pub fn resolve_specifier_cased(
    from_path: &str,
    specifier: &str,
    index: &FileIndex,
    project: &JsProject,
) -> (r: Result<(FileId, bool), UnresolvedReason>)
    requires
        index.wf(),
    ensures
        result_view(r) == js_outcome(index.path_texts(), from_path@, specifier@, *project),
{
    let s = chars_of(specifier);
    if s.len() == 0 {
        return Err(UnresolvedReason::NoSuchFile(string_of(s.as_slice())));
    }
    if let Some(ext) = asset_extension(specifier) {
        let e = chars_of(ext);
        let t = trim_leading_dots(e.as_slice());
        return Err(UnresolvedReason::Asset(string_of(t.as_slice())));
    }
    let one = vec!['.'];
    let two = vec!['.', '.'];
    assert(one@ =~= seq!['.']);
    assert(two@ =~= seq!['.', '.']);
    if is_dot_relative_exec(s.as_slice()) || chars_eq(s.as_slice(), one.as_slice()) || chars_eq(s.as_slice(), two.as_slice()) {
        let from = chars_of(from_path);
        let dir = parent_dir(from.as_slice());
        let candidate = join_rel_chars(dir.as_slice(), s.as_slice());
        return match try_candidate_cased(candidate.as_slice(), index) {
            Some(h) => Ok(h),
            None => Err(UnresolvedReason::NoSuchFile(string_of(s.as_slice()))),
        };
    }
    if s[0] == '/' {
        let rest = vstd::slice::slice_subrange(s.as_slice(), 1, s.len());
        assert(rest@ =~= s@.drop_first());
        return match try_candidate_cased(rest, index) {
            Some(h) => Ok(h),
            None => Err(UnresolvedReason::NoSuchFile(string_of(s.as_slice()))),
        };
    }
    match first_alias_in(&project.aliases, s.as_slice()) {
        Some(i) => {
            proof {
                let marks = Seq::new(project.aliases@.len(), |k: int| if alias_applies(project.aliases@[k], s@) { Some(k) } else { None });
                crate::text::lemma_first_some_member(marks);
            }
            let cands = alias_candidate_list(&project.aliases[i], s.as_slice());
            match first_hit_in(&cands, index) {
                Some(h) => Ok(h),
                None => Err(UnresolvedReason::UnmatchedAlias(string_of(s.as_slice()))),
            }
        },
        None => {
            let mut cands = package_candidate_list(&project.workspace_packages, s.as_slice());
            let b = base_candidate_list(&project.base_urls, s.as_slice());
            append_all(&mut cands, &b);
            match first_hit_in(&cands, index) {
                Some(h) => Ok(h),
                None => Err(UnresolvedReason::External(string_of(package_name_of(s.as_slice()).as_slice()))),
            }
        },
    }
}

/// Resolves `specifier`, written in `from_path`, to a scanned file.
pub fn resolve_specifier(
    from_path: &str,
    specifier: &str,
    index: &FileIndex,
    project: &JsProject,
) -> (r: Result<FileId, UnresolvedReason>)
    requires
        index.wf(),
    ensures
        result_view(r) == match js_outcome(index.path_texts(), from_path@, specifier@, *project) {
            Ok(h) => Ok(h.0),
            Err(e) => Err(e),
        },
{
    match resolve_specifier_cased(from_path, specifier, index, project) {
        Ok(h) => Ok(h.0),
        Err(e) => Err(e),
    }
}

/// A path alias as text.
pub struct AliasView {
    pub prefix: Seq<char>,
    pub suffix: Seq<char>,
    pub has_wildcard: bool,
    pub targets: Seq<Seq<char>>,
    pub source: Seq<char>,
    pub pattern: Seq<char>,
}

pub open spec fn alias_view(a: PathAlias) -> AliasView {
    AliasView {
        prefix: a.prefix@,
        suffix: a.suffix@,
        has_wildcard: a.has_wildcard,
        targets: a.targets@.map_values(|t: String| t@),
        source: a.source@,
        pattern: a.pattern@,
    }
}

/// The index just past the `}` that closes the object whose body starts at
/// `i` (at nesting `depth`), or the end.
pub open spec fn brace_end(b: Seq<u8>, i: int, depth: nat) -> int
    decreases b.len() - i,
{
    if i < 0 || i >= b.len() {
        b.len() as int
    } else if b[i] == 123 {
        brace_end(b, i + 1, depth + 1)
    } else if b[i] == 125 {
        if depth == 0 {
            i
        } else {
            brace_end(b, i + 1, (depth - 1) as nat)
        }
    } else {
        brace_end(b, i + 1, depth)
    }
}

pub proof fn lemma_brace_end(b: Seq<u8>, i: int, depth: nat)
    requires
        0 <= i <= b.len(),
    ensures
        i <= brace_end(b, i, depth) <= b.len(),
        brace_end(b, i, depth) < b.len() ==> b[brace_end(b, i, depth)] == 125,
    decreases b.len() - i,
{
    if i < b.len() {
        if b[i] == 123 {
            lemma_brace_end(b, i + 1, depth + 1);
        } else if b[i] == 125 {
            if depth != 0 {
                lemma_brace_end(b, i + 1, (depth - 1) as nat);
            }
        } else {
            lemma_brace_end(b, i + 1, depth);
        }
    }
}

/// The body of the `"paths"` object of a tsconfig text, if there is one.
pub open spec fn paths_body(b: Seq<u8>) -> Option<(int, int)> {
    match key_end(b, "paths"@) {
        None => None,
        Some(pa) => if !at_boundary(b, pa) {
            None
        } else {
            match find_from(b, seq![123u8], pa) {
                None => None,
                Some(o) => Some((o + 1, brace_end(b, o + 1, 0))),
            }
        },
    }
}

/// The alias a `paths` key makes: split at its first `*`, targets joined
/// onto the base directory.
pub open spec fn alias_from_key(key: Seq<char>, targets: Seq<Seq<char>>, base: Seq<char>, source: Seq<char>) -> AliasView {
    let ts = targets.map_values(|t: Seq<char>| joined_rel(base, t));
    match first_index_of(key, '*') {
        Some(k) => AliasView { prefix: key.take(k), suffix: key.skip(k + 1), has_wildcard: true, targets: ts, source: source, pattern: key },
        None => AliasView { prefix: key, suffix: Seq::empty(), has_wildcard: false, targets: ts, source: source, pattern: key },
    }
}

/// The aliases of a `paths` body from byte `cur` on: each quoted key followed
/// by a non-empty array of targets.
pub open spec fn aliases_from(bd: Seq<u8>, cur: int, base: Seq<char>, source: Seq<char>) -> Seq<AliasView>
    decreases bd.len() - cur,
{
    if cur < 0 || cur > bd.len() {
        Seq::empty()
    } else {
        match find_from(bd, seq![34u8], cur) {
            None => Seq::empty(),
            Some(q) => {
                proof {
                    lemma_found(bd, seq![34u8], cur);
                }
                match find_from(bd, seq![34u8], q + 1) {
                    None => Seq::empty(),
                    Some(qe) => {
                        proof {
                            lemma_found(bd, seq![34u8], q + 1);
                        }
                        let key = decode_utf8(bd.subrange(q + 1, qe));
                        let ak = qe + 1;
                        let targets = array_strings(bd, ak);
                        if targets.len() == 0 {
                            aliases_from(bd, ak, base, source)
                        } else {
                            let next = match find_from(bd, seq![93u8], ak) {
                                Some(i) => i + 1,
                                None => bd.len() as int,
                            };
                            proof {
                                if find_from(bd, seq![93u8], ak) is Some {
                                    lemma_found(bd, seq![93u8], ak);
                                }
                            }
                            seq![alias_from_key(key, targets, base, source)] + aliases_from(bd, next, base, source)
                        }
                    },
                }
            },
        }
    }
}

/// The aliases a tsconfig text declares under `"paths"`.
pub open spec fn collected_aliases(b: Seq<u8>, base: Seq<char>, source: Seq<char>) -> Seq<AliasView> {
    match paths_body(b) {
        None => Seq::empty(),
        Some(r) => aliases_from(b.subrange(r.0, r.1), 0, base, source),
    }
}

fn alias_of_key(key: &[char], targets: &Vec<String>, base_dir: &str, source: &str) -> (r: PathAlias)
    ensures
        alias_view(r) == alias_from_key(key@, targets@.map_values(|t: String| t@), base_dir@, source@),
{
    let base = chars_of(base_dir);
    let ghost tv = targets@.map_values(|t: String| t@);
    let mut joined: Vec<String> = Vec::new();
    let mut i: usize = 0;
    while i < targets.len()
        invariant
            i <= targets@.len(),
            base@ == base_dir@,
            tv == targets@.map_values(|t: String| t@),
            joined@.map_values(|t: String| t@) == tv.take(i as int).map_values(|t: Seq<char>| joined_rel(base_dir@, t)),
        decreases targets@.len() - i,
    {
        let t = chars_of(targets[i].as_str());
        let j = string_of(join_rel_chars(base.as_slice(), t.as_slice()).as_slice());
        let ghost before = joined@.map_values(|t: String| t@);
        joined.push(j);
        assert(joined@.map_values(|t: String| t@) =~= before.push(j@));
        assert(tv.take(i + 1).map_values(|t: Seq<char>| joined_rel(base_dir@, t)) =~= tv.take(i as int).map_values(|t: Seq<char>| joined_rel(base_dir@, t)).push(joined_rel(base_dir@, tv[i as int])));
        i += 1;
    }
    assert(tv.take(i as int) == tv);
    proof {
        lemma_first_index_of(key@, '*');
    }
    let pattern = string_of(key);
    match find_char(key, '*') {
        Some(k) => {
            let n = key.len();
            let prefix = string_of(vstd::slice::slice_subrange(key, 0, k));
            let suffix = string_of(vstd::slice::slice_subrange(key, k + 1, n));
            assert(prefix@ =~= key@.take(k as int));
            assert(suffix@ =~= key@.skip(k + 1));
            PathAlias { prefix, suffix, has_wildcard: true, targets: joined, source: crate::text::owned(source), pattern }
        },
        None => {
            let prefix = string_of(key);
            let suffix = String::new();
            PathAlias { prefix, suffix, has_wildcard: false, targets: joined, source: crate::text::owned(source), pattern }
        },
    }
}

/// Adds the aliases of a tsconfig text's `"paths"` object to `out`; targets
/// are joined onto `base_dir`, `source` names the file.
pub fn collect_aliases(src: &str, base_dir: &str, source: &str, out: &mut Vec<PathAlias>)
    ensures
        final(out)@.map_values(|a: PathAlias| alias_view(a)) == old(out)@.map_values(|a: PathAlias| alias_view(a)) + collected_aliases(encode_utf8(src@), base_dir@, source@),
{
    let b = src.as_bytes();
    let ghost bs = b@;
    let bl = b.len();
    proof {
        vstd::utf8::encode_utf8_valid_utf8(src@);
    }
    let ghost start = out@.map_values(|a: PathAlias| alias_view(a));
    let pa = match find_key(src, "paths") {
        Some(p) => p,
        None => {
            assert(start + collected_aliases(bs, base_dir@, source@) =~= start);
            return;
        },
    };
    if pa > bl || !crate::resolve::javascript::jsonc::boundary_at(b, pa) {
        assert(start + collected_aliases(bs, base_dir@, source@) =~= start);
        return;
    }
    let brace: Vec<u8> = vec![123];
    assert(brace@ =~= seq![123u8]);
    let o = match find_bytes(b, brace.as_slice(), pa) {
        Some(o) => o,
        None => {
            assert(start + collected_aliases(bs, base_dir@, source@) =~= start);
            return;
        },
    };
    proof {
        lemma_found(bs, brace@, pa as int);
        assert(bs.subrange(o as int, o + 1)[0] == bs[o as int]);
        lemma_after_ascii(bs, o as int);
        lemma_boundary(bs, o + 1);
    }
    let s0 = o + 1;
    let mut i = s0;
    let mut depth: usize = 0;
    let mut end = bl;
    let mut done = false;
    while i < bl && !done
        invariant
            bl == bs.len(),
            bs == b@,
            s0 <= i <= bl,
            depth <= i - s0,
            !done ==> brace_end(bs, s0 as int, 0) == brace_end(bs, i as int, depth as nat),
            done ==> brace_end(bs, s0 as int, 0) == end && end < bl,
            !done ==> end == bl,
        decreases bl - i + if done { 0int } else { 1int },
    {
        if b[i] == 123 {
            depth += 1;
            i += 1;
        } else if b[i] == 125 {
            if depth == 0 {
                end = i;
                done = true;
            } else {
                depth -= 1;
                i += 1;
            }
        } else {
            i += 1;
        }
    }
    proof {
        lemma_brace_end(bs, s0 as int, 0);
        if end < bl {
            lemma_boundary(bs, end as int);
        }
    }
    let (_, tail) = src.split_at(s0);
    let ghost tb = encode_utf8(tail@);
    assert(tb =~= bs.subrange(s0 as int, bs.len() as int));
    proof {
        vstd::utf8::encode_utf8_valid_utf8(tail@);
        if end < bl {
            assert(tb[end - s0] == bs[end as int]);
        }
        lemma_boundary(tb, end - s0);
    }
    let (body, _) = tail.split_at(end - s0);
    let bd = body.as_bytes();
    let ghost bds = bd@;
    assert(bds =~= bs.subrange(s0 as int, end as int));
    assert(paths_body(bs) == Some((s0 as int, end as int)));
    proof {
        vstd::utf8::encode_utf8_valid_utf8(body@);
    }
    let quote: Vec<u8> = vec![34];
    let close: Vec<u8> = vec![93];
    assert(quote@ =~= seq![34u8]);
    assert(close@ =~= seq![93u8]);
    let n = bd.len();
    let mut cur: usize = 0;
    while cur <= n
        invariant
            n == bds.len(),
            bds == bd@,
            bds == encode_utf8(body@),
            valid_utf8(bds),
            quote@ == seq![34u8],
            close@ == seq![93u8],
            cur <= n + 1,
            out@.map_values(|a: PathAlias| alias_view(a)) + aliases_from(bds, cur as int, base_dir@, source@) == start + aliases_from(bds, 0, base_dir@, source@),
        ensures
            out@.map_values(|a: PathAlias| alias_view(a)) == start + aliases_from(bds, 0, base_dir@, source@),
        decreases n + 1 - cur,
    {
        let q = match find_bytes(bd, quote.as_slice(), cur) {
            Some(q) => q,
            None => {
                assert(aliases_from(bds, cur as int, base_dir@, source@) =~= Seq::<AliasView>::empty());
                assert(out@.map_values(|a: PathAlias| alias_view(a)) =~= out@.map_values(|a: PathAlias| alias_view(a)) + aliases_from(bds, cur as int, base_dir@, source@));
                break;
            },
        };
        proof {
            lemma_found(bds, quote@, cur as int);
        }
        let qe = match find_bytes(bd, quote.as_slice(), q + 1) {
            Some(qe) => qe,
            None => {
                assert(aliases_from(bds, cur as int, base_dir@, source@) =~= Seq::<AliasView>::empty());
                assert(out@.map_values(|a: PathAlias| alias_view(a)) =~= out@.map_values(|a: PathAlias| alias_view(a)) + aliases_from(bds, cur as int, base_dir@, source@));
                break;
            },
        };
        proof {
            lemma_found(bds, quote@, q + 1);
            assert(bds.subrange(q as int, q + 1)[0] == bds[q as int]);
            assert(bds.subrange(qe as int, qe + 1)[0] == bds[qe as int]);
            lemma_after_ascii(bds, q as int);
            lemma_boundary(bds, q + 1);
        }
        let (_, ktail) = body.split_at(q + 1);
        let ghost kt = encode_utf8(ktail@);
        assert(kt =~= bds.subrange(q + 1, bds.len() as int));
        proof {
            vstd::utf8::encode_utf8_valid_utf8(ktail@);
            assert(kt[qe - q - 1] == bds[qe as int]);
            lemma_boundary(kt, qe - q - 1);
        }
        let (key, _) = ktail.split_at(qe - q - 1);
        assert(encode_utf8(key@) =~= bds.subrange(q + 1, qe as int));
        proof {
            vstd::utf8::encode_utf8_decode_utf8(key@);
        }
        let kc = chars_of(key);
        let ak = qe + 1;
        let targets = string_array(body, ak);
        if targets.len() == 0 {
            cur = ak;
            continue;
        }
        let alias = alias_of_key(kc.as_slice(), &targets, base_dir, source);
        let next = match find_bytes(bd, close.as_slice(), ak) {
            Some(i) => {
                proof {
                    lemma_found(bds, close@, ak as int);
                }
                i + 1
            },
            None => n,
        };
        let ghost before = out@.map_values(|a: PathAlias| alias_view(a));
        out.push(alias);
        assert(out@.map_values(|a: PathAlias| alias_view(a)) =~= before.push(alias_view(alias)));
        assert(out@.map_values(|a: PathAlias| alias_view(a)) + aliases_from(bds, next as int, base_dir@, source@) =~= before + aliases_from(bds, cur as int, base_dir@, source@));
        cur = next;
    }
}

fn copy_alias(a: &PathAlias) -> (r: PathAlias)
    ensures
        alias_view(r) == alias_view(*a),
{
    PathAlias {
        prefix: a.prefix.clone(),
        suffix: a.suffix.clone(),
        has_wildcard: a.has_wildcard,
        targets: crate::resolve::rust::copy_strings(&a.targets),
        source: a.source.clone(),
        pattern: a.pattern.clone(),
    }
}

/// The file name of a TypeScript configuration.
pub open spec fn is_tsconfig_name(n: Seq<char>) -> bool {
    n == "tsconfig.json"@ || (is_prefix("tsconfig."@, n) && is_suffix(".json"@, n))
}

/// The string value of `key` in a raw JSONC text, comments removed first.
pub open spec fn config_field(raw: Seq<char>, key: Seq<char>) -> Option<Seq<char>> {
    match field_bytes(encode_utf8(stripped(encode_utf8(raw), 0, false, false)), key, 0) {
        Some(v) => Some(decode_utf8(v)),
        None => None,
    }
}

/// `pairs` with `k` set to `v`: in place when `k` is there, else added.
pub open spec fn pairs_put(pairs: Seq<(Seq<char>, Seq<char>)>, k: Seq<char>, v: Seq<char>) -> Seq<(Seq<char>, Seq<char>)> {
    match first_some(Seq::new(pairs.len(), |i: int| if pairs[i].0 == k { Some(i) } else { None })) {
        Some(i) => pairs.update(i, (k, v)),
        None => pairs.push((k, v)),
    }
}

/// What reading the configuration files gathers, before sorting.
pub struct ProjectScan {
    pub aliases: Seq<AliasView>,
    pub bases: Seq<Seq<char>>,
    pub packages: Seq<(Seq<char>, Seq<char>)>,
}

/// One configuration file: a tsconfig adds its base URL (joined onto its
/// directory) and its path aliases; a package.json outside the root adds its
/// package name and directory.
pub open spec fn scan_config(st: ProjectScan, rel: Seq<char>, raw: Seq<char>) -> ProjectScan {
    let name = last_piece(rel, '/');
    let dir = before_last(rel, '/');
    let st1 = if is_tsconfig_name(name) {
        let base_url = match config_field(raw, "baseUrl"@) { Some(u) => u, None => Seq::empty() };
        let base_dir = if base_url.len() == 0 { dir } else { joined_rel(dir, base_url) };
        let src = encode_utf8(stripped(encode_utf8(raw), 0, false, false));
        ProjectScan {
            aliases: st.aliases + collected_aliases(src, base_dir, rel),
            bases: if base_url.len() > 0 { st.bases.push(base_dir) } else { st.bases },
            packages: st.packages,
        }
    } else {
        st
    };
    if name == "package.json"@ {
        match config_field(raw, "name"@) {
            Some(pkg) => if dir.len() > 0 {
                ProjectScan { aliases: st1.aliases, bases: st1.bases, packages: pairs_put(st1.packages, pkg, dir) }
            } else {
                st1
            },
            None => st1,
        }
    } else {
        st1
    }
}

pub open spec fn scan_configs(configs: Seq<(String, String)>) -> ProjectScan
    decreases configs.len(),
{
    if configs.len() == 0 {
        ProjectScan { aliases: Seq::empty(), bases: Seq::empty(), packages: Seq::empty() }
    } else {
        scan_config(scan_configs(configs.drop_last()), configs.last().0@, configs.last().1@)
    }
}

/// Longer alias prefixes (in bytes) first.
pub open spec fn alias_before(a: AliasView, b: AliasView) -> bool {
    encode_utf8(a.prefix).len() > encode_utf8(b.prefix).len()
}

pub open spec fn pair_view(p: (String, String)) -> (Seq<char>, Seq<char>) {
    (p.0@, p.1@)
}

fn put_package(pkgs: &mut Vec<(String, String)>, k: String, v: String)
    ensures
        final(pkgs)@.map_values(|p: (String, String)| pair_view(p)) == pairs_put(old(pkgs)@.map_values(|p: (String, String)| pair_view(p)), k@, v@),
{
    let ghost ps = pkgs@.map_values(|p: (String, String)| pair_view(p));
    assert(ps == old(pkgs)@.map_values(|p: (String, String)| pair_view(p)));
    let ghost marks = Seq::new(ps.len(), |i: int| if ps[i].0 == k@ { Some(i) } else { None });
    let mut i: usize = 0;
    while i < pkgs.len()
        invariant
            i <= pkgs@.len(),
            ps == pkgs@.map_values(|p: (String, String)| pair_view(p)),
            ps == old(pkgs)@.map_values(|p: (String, String)| pair_view(p)),
            marks == Seq::new(ps.len(), |i: int| if ps[i].0 == k@ { Some(i) } else { None }),
            first_some(marks.take(i as int)) is None,
        decreases pkgs@.len() - i,
    {
        proof {
            lemma_first_some_step(marks, i as int);
        }
        if crate::text::str_eq(pkgs[i].0.as_str(), k.as_str()) {
            assert(ps[i as int].0 == k@);
            assert(marks[i as int] == Some(i as int));
            proof {
                lemma_first_some_prefix(marks, i + 1);
            }
            let ghost kv = k@;
            let ghost vv = v@;
            pkgs.set(i, (k, v));
            assert(pkgs@.map_values(|p: (String, String)| pair_view(p)) =~= ps.update(i as int, (kv, vv)));
            assert(pairs_put(ps, kv, vv) == ps.update(i as int, (kv, vv)));
            return;
        }
        i += 1;
    }
    proof {
        lemma_first_some_all(marks);
    }
    pkgs.push((k, v));
    assert(pkgs@.map_values(|p: (String, String)| pair_view(p)) =~= ps.push((k@, v@)));
}

/// Builds the project from the configuration files read, given as (path,
/// text) pairs in scan order: aliases longest prefix first (ties in the order
/// found), base URLs sorted without repeats, workspace packages by name.
pub fn build_project(configs: &[(String, String)]) -> (p: JsProject)
    ensures
        p.aliases@.map_values(|a: PathAlias| alias_view(a)) == stable_sorted(
            scan_configs(configs@).aliases,
            |a: AliasView, b: AliasView| alias_before(a, b),
        ),
        strictly_sorted(p.base_urls@.map_values(|s: String| s@), false),
        p.base_urls@.map_values(|s: String| s@).to_set() == scan_configs(configs@).bases.to_set(),
        p.workspace_packages@.map_values(|q: (String, String)| pair_view(q)) == scan_configs(configs@).packages,
{
    let mut aliases: Vec<PathAlias> = Vec::new();
    let mut bases: Vec<String> = Vec::new();
    let mut packages: Vec<(String, String)> = Vec::new();
    let mut i: usize = 0;
    assert(aliases@.map_values(|a: PathAlias| alias_view(a)) =~= Seq::<AliasView>::empty());
    assert(bases@.map_values(|s: String| s@) =~= Seq::<Seq<char>>::empty());
    assert(packages@.map_values(|q: (String, String)| pair_view(q)) =~= Seq::<(Seq<char>, Seq<char>)>::empty());
    while i < configs.len()
        invariant
            i <= configs@.len(),
            scan_configs(configs@.take(i as int)) == (ProjectScan {
                aliases: aliases@.map_values(|a: PathAlias| alias_view(a)),
                bases: bases@.map_values(|s: String| s@),
                packages: packages@.map_values(|q: (String, String)| pair_view(q)),
            }),
        decreases configs@.len() - i,
    {
        assert(configs@.take(i + 1).drop_last() == configs@.take(i as int));
        assert(configs@.take(i + 1).last() == configs@[i as int]);
        let rel = chars_of(configs[i].0.as_str());
        let name = crate::resolve::python::last_piece_of(rel.as_slice());
        let dir = parent_dir(rel.as_slice());
        let ns = string_of(name.as_slice());
        let tsc = crate::text::str_eq(ns.as_str(), "tsconfig.json") || (
            starts_with(name.as_slice(), chars_of("tsconfig.").as_slice()) && ends_with(name.as_slice(), chars_of(".json").as_slice()));
        if tsc {
            let src = strip_comments(configs[i].1.as_str());
            let base_url = match string_field(src.as_str(), "baseUrl", 0) {
                Some(u) => {
                    proof {
                        vstd::utf8::encode_utf8_decode_utf8(u@);
                    }
                    u
                },
                None => String::new(),
            };
            let bu = chars_of(base_url.as_str());
            let base_dir = if bu.len() == 0 {
                vstd::slice::slice_to_vec(dir.as_slice())
            } else {
                join_rel_chars(dir.as_slice(), bu.as_slice())
            };
            let bds = string_of(base_dir.as_slice());
            if bu.len() > 0 {
                let ghost before = bases@.map_values(|s: String| s@);
                bases.push(string_of(base_dir.as_slice()));
                assert(bases@.map_values(|s: String| s@) =~= before.push(base_dir@));
            }
            let ghost before_a = aliases@.map_values(|a: PathAlias| alias_view(a));
            collect_aliases(src.as_str(), bds.as_str(), configs[i].0.as_str(), &mut aliases);
        }
        if crate::text::str_eq(ns.as_str(), "package.json") {
            let src = strip_comments(configs[i].1.as_str());
            match string_field(src.as_str(), "name", 0) {
                Some(pkg) => {
                    proof {
                        vstd::utf8::encode_utf8_decode_utf8(pkg@);
                    }
                    if dir.len() > 0 {
                        put_package(&mut packages, pkg, string_of(dir.as_slice()));
                    }
                },
                None => {},
            }
        }
        i += 1;
    }
    assert(configs@.take(i as int) == configs@);
    let ghost found = aliases@.map_values(|a: PathAlias| alias_view(a));
    let ghost before_fn = |a: AliasView, b: AliasView| alias_before(a, b);
    let mut sorted: Vec<PathAlias> = Vec::new();
    let mut k: usize = 0;
    let mut rest = aliases;
    let mut taken: Vec<PathAlias> = Vec::new();
    assert(sorted@.map_values(|a: PathAlias| alias_view(a)) =~= stable_sorted(found.take(0), before_fn));
    while k < rest.len()
        invariant
            k <= rest@.len(),
            found == rest@.map_values(|a: PathAlias| alias_view(a)),
            before_fn == |a: AliasView, b: AliasView| alias_before(a, b),
            sorted@.map_values(|a: PathAlias| alias_view(a)) == stable_sorted(found.take(k as int), before_fn),
        decreases rest@.len() - k,
    {
        let x = copy_alias(&rest[k]);
        let ghost xv = found[k as int];
        let ghost sv = sorted@.map_values(|a: PathAlias| alias_view(a));
        let mut count: usize = 0;
        let mut q: usize = 0;
        while q < sorted.len()
            invariant
                q <= sorted@.len(),
                sv == sorted@.map_values(|a: PathAlias| alias_view(a)),
                before_fn == |a: AliasView, b: AliasView| alias_before(a, b),
                count == count_not_before(sv.take(q as int), xv, before_fn),
                count <= q,
                xv.prefix == x.prefix@,
            decreases sorted@.len() - q,
        {
            assert(sv.take(q + 1).drop_last() == sv.take(q as int));
            assert(sv.take(q + 1).last() == alias_view(sorted@[q as int]));
            let xl = x.prefix.as_str().as_bytes().len();
            let yl = sorted[q].prefix.as_str().as_bytes().len();
            assert(xl == encode_utf8(xv.prefix).len());
            assert(yl == encode_utf8(sv[q as int].prefix).len());
            assert(alias_before(xv, sv[q as int]) == (xl > yl));
            assert(before_fn(xv, sv[q as int]) == (xl > yl));
            if !(xl > yl) {
                count += 1;
            }
            q += 1;
        }
        assert(sv.take(q as int) == sv);
        sorted.insert(count, x);
        proof {
            assert(found.take(k + 1).drop_last() == found.take(k as int));
            assert(found.take(k + 1).last() == xv);
            assert(sorted@.map_values(|a: PathAlias| alias_view(a)) =~= sv.insert(count as int, xv));
        }
        k += 1;
    }
    assert(found.take(k as int) == found);
    let mut uniq: Vec<String> = Vec::new();
    let ghost bv = bases@.map_values(|s: String| s@);
    let mut b: usize = 0;
    assert(uniq@.map_values(|s: String| s@) =~= Seq::<Seq<char>>::empty());
    while b < bases.len()
        invariant
            b <= bases@.len(),
            bv == bases@.map_values(|s: String| s@),
            strictly_sorted(uniq@.map_values(|s: String| s@), false),
            uniq@.map_values(|s: String| s@).to_set() == bv.take(b as int).to_set(),
        decreases bases@.len() - b,
    {
        insert_sorted(&mut uniq, bases[b].clone(), false);
        proof {
            crate::text::lemma_push_to_set(bv.take(b as int), bv[b as int]);
            assert(bv.take(b + 1) =~= bv.take(b as int).push(bv[b as int]));
        }
        b += 1;
    }
    assert(bv.take(b as int) == bv);
    JsProject { aliases: sorted, base_urls: uniq, workspace_packages: packages }
}

/// A target pattern without its trailing `*` and `/`s.
pub open spec fn target_stem(t: Seq<char>) -> Seq<char> {
    crate::text::strip_trailing(crate::text::strip_trailing(t, '*'), '/')
}

/// Some scanned file lies under directory `stem` (any does when it is empty).
pub open spec fn scan_has_prefix(paths: Seq<Seq<char>>, stem: Seq<char>) -> bool {
    stem.len() == 0 || exists|i: int| 0 <= i < paths.len() && #[trigger] is_prefix(stem.push('/'), paths[i])
}

/// The scan has something at a target: the stem itself, a file it resolves
/// to, or a file under it.
pub open spec fn target_in_scan(paths: Seq<Seq<char>>, t: Seq<char>) -> bool {
    let stem = target_stem(t);
    paths.contains(stem) || lookup(paths, stem) is Some || scan_has_prefix(paths, stem)
}

/// How many specifiers an alias applies to.
pub open spec fn usage(a: PathAlias, specs: Seq<Seq<char>>) -> nat
    decreases specs.len(),
{
    if specs.len() == 0 {
        0
    } else {
        usage(a, specs.drop_last()) + if alias_applies(a, specs.last()) { 1nat } else { 0nat }
    }
}

/// An audit entry as text.
pub struct AuditView {
    pub pattern: Seq<char>,
    pub targets: Seq<Seq<char>>,
    pub source: Seq<char>,
    pub used_by: u32,
    pub resolves: bool,
}

pub open spec fn audit_view(a: AliasAudit) -> AuditView {
    AuditView { pattern: a.pattern@, targets: a.targets@.map_values(|t: String| t@), source: a.source@, used_by: a.used_by, resolves: a.resolves }
}

/// The audit of one alias; it resolves when a target is in the scan or on disk.
pub open spec fn alias_audit(paths: Seq<Seq<char>>, a: PathAlias, specs: Seq<Seq<char>>, on_disk: bool) -> AuditView {
    AuditView {
        pattern: a.pattern@,
        targets: a.targets@.map_values(|t: String| t@),
        source: a.source@,
        used_by: usage(a, specs) as u32,
        resolves: (exists|i: int| 0 <= i < a.targets@.len() && #[trigger] target_in_scan(paths, a.targets@[i]@)) || on_disk,
    }
}

/// The audits worth reporting: aliases that resolve nowhere or that nothing uses.
pub open spec fn alias_audits(paths: Seq<Seq<char>>, aliases: Seq<PathAlias>, specs: Seq<Seq<char>>, on_disk: Seq<bool>) -> Seq<AuditView>
    decreases aliases.len(),
{
    if aliases.len() == 0 {
        Seq::empty()
    } else {
        let prev = alias_audits(paths, aliases.drop_last(), specs, on_disk);
        let a = alias_audit(paths, aliases.last(), specs, on_disk[aliases.len() - 1]);
        if !a.resolves || a.used_by == 0 {
            prev.push(a)
        } else {
            prev
        }
    }
}

/// The stems of an alias's targets, for looking them up on disk.
pub fn alias_target_stems(alias: &PathAlias) -> (r: Vec<String>)
    ensures
        r@.map_values(|s: String| s@) == alias.targets@.map_values(|t: String| target_stem(t@)),
{
    let mut out: Vec<String> = Vec::new();
    let mut i: usize = 0;
    while i < alias.targets.len()
        invariant
            i <= alias.targets@.len(),
            out@.map_values(|s: String| s@) == alias.targets@.take(i as int).map_values(|t: String| target_stem(t@)),
        decreases alias.targets@.len() - i,
    {
        let t = chars_of(alias.targets[i].as_str());
        let a = crate::text::strip_trailing_chars(t.as_slice(), '*');
        let b = crate::text::strip_trailing_chars(a.as_slice(), '/');
        let ghost before = out@.map_values(|s: String| s@);
        out.push(string_of(b.as_slice()));
        assert(out@.map_values(|s: String| s@) =~= before.push(target_stem(alias.targets@[i as int]@)));
        assert(alias.targets@.take(i + 1).map_values(|t: String| target_stem(t@)) =~= alias.targets@.take(i as int).map_values(|t: String| target_stem(t@)).push(target_stem(alias.targets@[i as int]@)));
        i += 1;
    }
    assert(alias.targets@.take(i as int) =~= alias.targets@);
    out
}

fn index_has_prefix(index: &FileIndex, stem: &[char]) -> (r: bool)
    requires
        index.wf(),
    ensures
        r == scan_has_prefix(index.path_texts(), stem@),
{
    if stem.len() == 0 {
        return true;
    }
    let mut prefix = vstd::slice::slice_to_vec(stem);
    prefix.push('/');
    let ghost paths = index.path_texts();
    proof {
        index.lemma_ids_fit();
    }
    let n = index.len();
    let mut i: usize = 0;
    while i < n
        invariant
            index.wf(),
            paths == index.path_texts(),
            n == paths.len(),
            n <= u32::MAX,
            i <= n,
            prefix@ == stem@.push('/'),
            forall|k: int| 0 <= k < i ==> !#[trigger] is_prefix(stem@.push('/'), paths[k]),
        decreases n - i,
    {
        let p = chars_of(index.path(FileId(i as u32)).unwrap());
        if starts_with(p.as_slice(), prefix.as_slice()) {
            return true;
        }
        i += 1;
    }
    false
}

fn target_found(index: &FileIndex, t: &str) -> (r: bool)
    requires
        index.wf(),
    ensures
        r == target_in_scan(index.path_texts(), t@),
{
    let tc = chars_of(t);
    let a = crate::text::strip_trailing_chars(tc.as_slice(), '*');
    let stem = crate::text::strip_trailing_chars(a.as_slice(), '/');
    let ss = string_of(stem.as_slice());
    index.contains(ss.as_str()) || try_candidate_cased(stem.as_slice(), index).is_some() || index_has_prefix(index, stem.as_slice())
}

/// Reports the aliases of the project that resolve nowhere (no target in the
/// scan, and `on_disk` false for it) or that no specifier uses; `on_disk`
/// tells, per alias, whether a target exists on disk.
pub fn audit_aliases(project: &JsProject, index: &FileIndex, specifiers: &[String], on_disk: &[bool]) -> (r: Vec<AliasAudit>)
    requires
        index.wf(),
        on_disk@.len() == project.aliases@.len(),
    ensures
        r@.map_values(|a: AliasAudit| audit_view(a)) == alias_audits(index.path_texts(), project.aliases@, specifiers@.map_values(|s: String| s@), on_disk@),
{
    let ghost paths = index.path_texts();
    let ghost specs = specifiers@.map_values(|s: String| s@);
    let mut out: Vec<AliasAudit> = Vec::new();
    let mut k: usize = 0;
    assert(out@.map_values(|a: AliasAudit| audit_view(a)) =~= Seq::<AuditView>::empty());
    while k < project.aliases.len()
        invariant
            index.wf(),
            paths == index.path_texts(),
            specs == specifiers@.map_values(|s: String| s@),
            on_disk@.len() == project.aliases@.len(),
            k <= project.aliases@.len(),
            out@.map_values(|a: AliasAudit| audit_view(a)) == alias_audits(paths, project.aliases@.take(k as int), specs, on_disk@),
        decreases project.aliases@.len() - k,
    {
        assert(project.aliases@.take(k + 1).drop_last() == project.aliases@.take(k as int));
        assert(project.aliases@.take(k + 1).last() == project.aliases@[k as int]);
        let alias = &project.aliases[k];
        let mut found = false;
        let mut t: usize = 0;
        while t < alias.targets.len() && !found
            invariant
                index.wf(),
                paths == index.path_texts(),
                t <= alias.targets@.len(),
                found == exists|i: int| 0 <= i < t && #[trigger] target_in_scan(paths, alias.targets@[i]@),
            decreases alias.targets@.len() - t,
        {
            if target_found(index, alias.targets[t].as_str()) {
                found = true;
            }
            t += 1;
        }
        let mut used: usize = 0;
        let mut s: usize = 0;
        while s < specifiers.len()
            invariant
                s <= specifiers@.len(),
                specs == specifiers@.map_values(|s: String| s@),
                used == usage(*alias, specs.take(s as int)),
                used <= s,
            decreases specifiers@.len() - s,
        {
            assert(specs.take(s + 1).drop_last() == specs.take(s as int));
            let sc = chars_of(specifiers[s].as_str());
            if matches_alias(alias, sc.as_slice()) {
                used += 1;
            }
            s += 1;
        }
        assert(specs.take(s as int) == specs);
        let resolves = found || on_disk[k];
        let used_by = used as u32;
        if !resolves || used_by == 0 {
            let entry = AliasAudit {
                pattern: alias.pattern.clone(),
                targets: crate::resolve::rust::copy_strings(&alias.targets),
                source: alias.source.clone(),
                used_by,
                resolves,
            };
            let ghost before = out@.map_values(|a: AliasAudit| audit_view(a));
            out.push(entry);
            assert(out@.map_values(|a: AliasAudit| audit_view(a)) =~= before.push(audit_view(entry)));
        }
        k += 1;
    }
    assert(project.aliases@.take(k as int) == project.aliases@);
    out
}

} // verus!
