//! Resolving import specifiers to files of the scan.
pub mod javascript;
pub mod python;
pub mod go;
pub mod rust;

use vstd::prelude::*;
use std::collections::HashMap;
use crate::model::{FileId, Language, UnresolvedReason};
use crate::parse::{ExportItem, ImportedNames, ParsedFile, RawImport};
use crate::text::{chars_eq, chars_of, str_eq};

verus! {

/// Where an import went.
#[derive(Debug, Clone, PartialEq, Eq)]
pub enum Resolution {
    File(FileId),
    ViaBarrel(FileId),
    External(String),
    Unresolved(UnresolvedReason),
}

/// The text of `s` with every letter in lower case, as `str::to_lowercase` gives it.
pub uninterp spec fn lowercase(s: Seq<char>) -> Seq<char>;

/// `str::to_lowercase`: its result is named `lowercase` of the argument. On
/// ASCII text it maps `A`-`Z` to `a`-`z` and leaves every other character
/// as it is, as Unicode's lower-case mapping does for ASCII.
#[verifier::external_body]
fn to_lowercase(s: &str) -> (r: String)
    ensures
        r@ == lowercase(s@),
        vstd::utf8::is_ascii_chars(s@) ==> r@ == crate::text::ascii_lower(s@),
{
    s.to_lowercase()
}

/// The characters of each string.
pub open spec fn texts(v: Seq<String>) -> Seq<Seq<char>> {
    v.map_values(|s: String| s@)
}

/// The last index whose entry equals `p`.
pub open spec fn last_match(ps: Seq<Seq<char>>, p: Seq<char>) -> Option<int>
    decreases ps.len(),
{
    if ps.len() == 0 {
        None
    } else if ps.last() == p {
        Some(ps.len() - 1)
    } else {
        last_match(ps.drop_last(), p)
    }
}

/// The first index whose entry, lower-cased, equals `p` lower-cased.
pub open spec fn first_folded_match(ps: Seq<Seq<char>>, p: Seq<char>) -> Option<int>
    decreases ps.len(),
{
    if ps.len() == 0 {
        None
    } else {
        match first_folded_match(ps.drop_last(), p) {
            Some(i) => Some(i),
            None => if lowercase(ps.last()) == lowercase(p) { Some(ps.len() - 1) } else { None },
        }
    }
}

pub proof fn lemma_last_match(ps: Seq<Seq<char>>, p: Seq<char>)
    ensures
        match last_match(ps, p) {
            Some(i) => 0 <= i < ps.len() && ps[i] == p,
            None => !ps.contains(p),
        },
    decreases ps.len(),
{
    if ps.len() > 0 {
        lemma_last_match(ps.drop_last(), p);
        if ps.last() != p {
            if ps.contains(p) {
                let j = choose|j: int| 0 <= j < ps.len() && ps[j] == p;
                assert(ps.drop_last()[j] == p);
            }
        }
    }
}

/// A match found in a prefix is the first match of the whole sequence.
pub proof fn lemma_first_folded_prefix(ps: Seq<Seq<char>>, p: Seq<char>, k: int)
    requires
        0 <= k <= ps.len(),
        first_folded_match(ps.take(k), p) is Some,
    ensures
        first_folded_match(ps, p) == first_folded_match(ps.take(k), p),
    decreases ps.len() - k,
{
    if k < ps.len() {
        assert(ps.take(k + 1).drop_last() == ps.take(k));
        lemma_first_folded_prefix(ps, p, k + 1);
    } else {
        assert(ps.take(k) == ps);
    }
}

/// The scanned files: their paths (relative, `/`-separated) and languages; a
/// file's id is its position.
pub struct FileIndex {
    folded: Vec<String>,
    pub languages: Vec<Language>,
    pub paths: Vec<String>,
}

/// The id of the file with path `p` (the last, if the path is listed twice).
pub open spec fn index_id(paths: Seq<Seq<char>>, p: Seq<char>) -> Option<FileId> {
    match last_match(paths, p) {
        Some(i) => Some(FileId(i as u32)),
        None => None,
    }
}

/// An index over distinct paths gives each path back its own position, and
/// nothing for a path it does not list: looking a listed path up by `id`
/// and the id up by `path` are inverse.
pub proof fn lemma_index_round_trip(paths: Seq<Seq<char>>)
    requires
        paths.len() <= u32::MAX,
        forall|i: int, j: int| 0 <= i < j < paths.len() ==> #[trigger] paths[i] != #[trigger] paths[j],
    ensures
        forall|i: int| 0 <= i < paths.len() ==> #[trigger] index_id(paths, paths[i]) == Some(FileId(i as u32)),
        forall|p: Seq<char>| !paths.contains(p) ==> #[trigger] index_id(paths, p) is None,
{
    assert forall|i: int| 0 <= i < paths.len() implies #[trigger] index_id(paths, paths[i]) == Some(FileId(i as u32)) by {
        lemma_last_match(paths, paths[i]);
        let j = last_match(paths, paths[i])->0;
        if j != i {
            if i < j {
                assert(paths[i] != paths[j]);
            } else {
                assert(paths[j] != paths[i]);
            }
        }
    }
    assert forall|p: Seq<char>| !paths.contains(p) implies #[trigger] index_id(paths, p) is None by {
        lemma_last_match(paths, p);
    }
}

/// The case-insensitive lookup: an exact hit reports `true`, otherwise the first
/// path equal up to letter case reports `false`.
pub open spec fn index_id_cased(paths: Seq<Seq<char>>, p: Seq<char>) -> Option<(FileId, bool)> {
    match index_id(paths, p) {
        Some(id) => Some((id, true)),
        None => match first_folded_match(paths, p) {
            Some(i) => Some((FileId(i as u32), false)),
            None => None,
        },
    }
}

impl FileIndex {
    /// The scanned paths, as text.
    pub closed spec fn path_texts(&self) -> Seq<Seq<char>> {
        texts(self.paths@)
    }

    /// The language of each scanned file.
    pub closed spec fn language_seq(&self) -> Seq<Language> {
        self.languages@
    }

    /// The lower-cased copies match the paths, and every id fits in a `u32`.
    pub closed spec fn wf(&self) -> bool {
        &&& self.paths@.len() <= u32::MAX
        &&& self.folded@.len() == self.paths@.len()
        &&& forall|i: int| 0 <= i < self.paths@.len() ==> #[trigger] self.folded@[i]@ == lowercase(self.paths@[i]@)
    }

    /// A well-formed index numbers its files within `u32`.
    pub proof fn lemma_ids_fit(&self)
        requires
            self.wf(),
        ensures
            self.path_texts().len() <= u32::MAX,
    {
    }

    pub fn new(paths: Vec<String>, languages: Vec<Language>) -> (r: FileIndex)
        requires
            paths@.len() <= u32::MAX,
        ensures
            r.wf(),
            r.path_texts() == texts(paths@),
            r.language_seq() == languages@,
    {
        let mut folded: Vec<String> = Vec::new();
        let mut i: usize = 0;
        while i < paths.len()
            invariant
                i <= paths@.len(),
                folded@.len() == i,
                forall|j: int| 0 <= j < i ==> #[trigger] folded@[j]@ == lowercase(paths@[j]@),
            decreases paths@.len() - i,
        {
            folded.push(to_lowercase(paths[i].as_str()));
            i += 1;
        }
        FileIndex { folded, languages, paths }
    }

    /// The id of the file at `path`.
    pub fn id(&self, path: &str) -> (r: Option<FileId>)
        requires
            self.wf(),
        ensures
            r == index_id(self.path_texts(), path@),
    {
        let p = chars_of(path);
        let mut i = self.paths.len();
        let ghost ps = texts(self.paths@);
        assert(ps.take(i as int) == ps);
        while i > 0
            invariant
                i <= self.paths@.len(),
                self.paths@.len() <= u32::MAX,
                p@ == path@,
                ps == texts(self.paths@),
                last_match(ps, path@) == last_match(ps.take(i as int), path@),
            decreases i,
        {
            assert(ps.take(i as int).drop_last() == ps.take(i - 1));
            let q = chars_of(self.paths[i - 1].as_str());
            if chars_eq(q.as_slice(), p.as_slice()) {
                return Some(FileId((i - 1) as u32));
            }
            i -= 1;
        }
        None
    }

    /// The id of the file at `path`, ignoring letter case when no exact match
    /// exists; the flag tells whether the match was exact.
    pub fn id_case_insensitive(&self, path: &str) -> (r: Option<(FileId, bool)>)
        requires
            self.wf(),
        ensures
            r == index_id_cased(self.path_texts(), path@),
    {
        if let Some(id) = self.id(path) {
            return Some((id, true));
        }
        let want = to_lowercase(path);
        let w = chars_of(want.as_str());
        let ghost ps = texts(self.paths@);
        let mut i: usize = 0;
        while i < self.paths.len()
            invariant
                self.wf(),
                i <= self.paths@.len(),
                w@ == lowercase(path@),
                ps == texts(self.paths@),
                first_folded_match(ps.take(i as int), path@) is None,
                index_id(ps, path@) is None,
            decreases self.paths@.len() - i,
        {
            assert(ps.take(i + 1).drop_last() == ps.take(i as int));
            let q = chars_of(self.folded[i].as_str());
            assert(self.folded@[i as int]@ == lowercase(self.paths@[i as int]@));
            if chars_eq(q.as_slice(), w.as_slice()) {
                proof {
                    assert(ps[i as int] == self.paths@[i as int]@);
                    assert(ps.take(i + 1).last() == ps[i as int]);
                    assert(first_folded_match(ps.take(i + 1), path@) == Some(i as int));
                    lemma_first_folded_prefix(ps, path@, i + 1);
                }
                return Some((FileId(i as u32), false));
            }
            i += 1;
        }
        assert(ps.take(i as int) == ps);
        None
    }

    /// The path of file `id`.
    pub fn path(&self, id: FileId) -> (r: Option<&str>)
        ensures
            (id.0 < self.path_texts().len()) ==> r is Some && r.unwrap()@ == self.path_texts()[id.0 as int],
            (id.0 >= self.path_texts().len()) ==> r is None,
    {
        let i = id.0 as usize;
        if i < self.paths.len() {
            Some(self.paths[i].as_str())
        } else {
            None
        }
    }

    /// Whether a file with exactly this path was scanned.
    pub fn contains(&self, path: &str) -> (r: bool)
        requires
            self.wf(),
        ensures
            r == self.path_texts().contains(path@),
    {
        proof {
            lemma_last_match(texts(self.paths@), path@);
        }
        self.id(path).is_some()
    }

    /// The language of the file numbered `i`.
    pub fn language_at(&self, i: usize) -> (r: Language)
        requires
            i < self.language_seq().len(),
        ensures
            r == self.language_seq()[i as int],
    {
        self.languages[i]
    }

    pub fn len(&self) -> (r: usize)
        ensures
            r == self.path_texts().len(),
    {
        self.paths.len()
    }

    pub fn is_empty(&self) -> (r: bool)
        ensures
            r == (self.path_texts().len() == 0),
    {
        self.paths.len() == 0
    }
}

/// How many barrels a symbol is followed through before giving up.
pub const MAX_REEXPORT_DEPTH: usize = 16;

/// Something that resolves one import of one file.
pub trait Resolver {
    fn resolve(&self, from: FileId, import: &RawImport) -> Resolution;
}

/// Some export of `symbol` is defined in the file itself (not forwarded).
pub open spec fn defines(exports: Seq<ExportItem>, symbol: Seq<char>) -> bool {
    exists|i: int| 0 <= i < exports.len() && #[trigger] exports[i].name@ == symbol && exports[i].from is None
}

/// The module of the first export named `name` that is forwarded from one.
pub open spec fn first_forward(exports: Seq<ExportItem>, name: Seq<char>) -> Option<Seq<char>>
    decreases exports.len(),
{
    if exports.len() == 0 {
        None
    } else {
        match first_forward(exports.drop_last(), name) {
            Some(f) => Some(f),
            None => {
                let e = exports.last();
                if e.name@ == name && e.from is Some {
                    Some(e.from.unwrap()@)
                } else {
                    None
                }
            },
        }
    }
}

/// Where a file sends a lookup of `symbol` on: its named forward, else its `*` forward.
pub open spec fn forward_of(exports: Seq<ExportItem>, symbol: Seq<char>) -> Option<Seq<char>> {
    match first_forward(exports, symbol) {
        Some(f) => Some(f),
        None => first_forward(exports, seq!['*']),
    }
}

/// The resolver, asked for `spec` from `from`, may answer `to`.
pub open spec fn answers<R: Fn(FileId, &str) -> Option<FileId>>(
    resolve: R,
    from: FileId,
    spec: Seq<char>,
    to: Option<FileId>,
) -> bool {
    exists|s: &str| s@ == spec && #[trigger] call_ensures(resolve, (from, s), to)
}

/// One step of the walk: `from` is parsed, does not define the symbol, forwards
/// it, and the resolver maps the forward to `to`.
pub open spec fn reexport_link<R: Fn(FileId, &str) -> Option<FileId>>(
    parsed: Map<u32, ParsedFile>,
    symbol: Seq<char>,
    resolve: R,
    from: FileId,
    to: Option<FileId>,
) -> bool {
    &&& parsed.contains_key(from.0)
    &&& !defines(parsed[from.0].exports@, symbol)
    &&& match forward_of(parsed[from.0].exports@, symbol) {
        Some(sp) => answers(resolve, from, sp, to),
        None => false,
    }
}

/// A walk through barrels: no file twice, each step a link.
pub open spec fn reexport_chain<R: Fn(FileId, &str) -> Option<FileId>>(
    parsed: Map<u32, ParsedFile>,
    symbol: Seq<char>,
    resolve: R,
    chain: Seq<FileId>,
) -> bool {
    &&& chain.len() >= 1
    &&& forall|i: int, j: int| 0 <= i < j < chain.len() ==> chain[i] != chain[j]
    &&& forall|i: int|
        0 <= i < chain.len() - 1 ==> #[trigger] reexport_link(parsed, symbol, resolve, chain[i], Some(chain[i + 1]))
}

/// The walk stops at `last` without an answer: it is not parsed, forwards nothing,
/// the resolver fails, or the resolver leads back into the walk.
pub open spec fn reexport_dead_end<R: Fn(FileId, &str) -> Option<FileId>>(
    parsed: Map<u32, ParsedFile>,
    symbol: Seq<char>,
    resolve: R,
    chain: Seq<FileId>,
) -> bool {
    let last = chain.last();
    ||| !parsed.contains_key(last.0)
    ||| parsed.contains_key(last.0) && !defines(parsed[last.0].exports@, symbol) && forward_of(parsed[last.0].exports@, symbol) is None
    ||| reexport_link(parsed, symbol, resolve, last, None)
    ||| exists|g: FileId| chain.contains(g) && #[trigger] reexport_link(parsed, symbol, resolve, last, Some(g))
}

/// Whether some export of `symbol` is defined in place.
fn defines_locally(exports: &Vec<ExportItem>, symbol: &str) -> (r: bool)
    ensures
        r == defines(exports@, symbol@),
{
    let mut i: usize = 0;
    while i < exports.len()
        invariant
            i <= exports@.len(),
            forall|j: int| 0 <= j < i ==> !(#[trigger] exports@[j].name@ == symbol@ && exports@[j].from is None),
        decreases exports@.len() - i,
    {
        if exports[i].from.is_none() && str_eq(exports[i].name.as_str(), symbol) {
            return true;
        }
        i += 1;
    }
    false
}

/// The module of the first export named `name` that is forwarded.
fn find_forward<'a>(exports: &'a Vec<ExportItem>, name: &str) -> (r: Option<&'a str>)
    ensures
        match r {
            Some(f) => first_forward(exports@, name@) == Some(f@),
            None => first_forward(exports@, name@) is None,
        },
{
    let mut i: usize = 0;
    while i < exports.len()
        invariant
            i <= exports@.len(),
            first_forward(exports@.take(i as int), name@) is None,
        decreases exports@.len() - i,
    {
        assert(exports@.take(i + 1).drop_last() == exports@.take(i as int));
        let e = &exports[i];
        if str_eq(e.name.as_str(), name) {
            if let Some(f) = &e.from {
                proof {
                    lemma_first_forward_prefix(exports@, name@, i + 1);
                }
                return Some(f.as_str());
            }
        }
        i += 1;
    }
    assert(exports@.take(i as int) == exports@);
    None
}

/// A forward found in a prefix is the first one of the whole list.
pub proof fn lemma_first_forward_prefix(exports: Seq<ExportItem>, name: Seq<char>, k: int)
    requires
        0 <= k <= exports.len(),
        first_forward(exports.take(k), name) is Some,
    ensures
        first_forward(exports, name) == first_forward(exports.take(k), name),
    decreases exports.len() - k,
{
    if k < exports.len() {
        assert(exports.take(k + 1).drop_last() == exports.take(k));
        lemma_first_forward_prefix(exports, name, k + 1);
    } else {
        assert(exports.take(k) == exports);
    }
}

/// Whether `id` occurs in `ids`.
fn contains_id(ids: &Vec<FileId>, id: FileId) -> (r: bool)
    ensures
        r == ids@.contains(id),
{
    let mut i: usize = 0;
    while i < ids.len()
        invariant
            i <= ids@.len(),
            forall|j: int| 0 <= j < i ==> ids@[j] != id,
        decreases ids@.len() - i,
    {
        if ids[i].0 == id.0 {
            assert(ids@[i as int] == id);
            return true;
        }
        i += 1;
    }
    false
}

/// Follows `symbol` from `start` through re-exporting files to the file that
/// defines it. `parsed` is keyed by file id; `resolve_specifier` maps a
/// forwarded specifier, seen from a file, to a file. At most
/// `MAX_REEXPORT_DEPTH` files are looked at, and a file met twice ends the walk.
pub fn follow_reexport<R: Fn(FileId, &str) -> Option<FileId>>(
    start: FileId,
    symbol: &str,
    parsed: &HashMap<u32, ParsedFile>,
    resolve_specifier: &R,
) -> (r: Option<FileId>)
    requires
        forall|f: FileId, s: &str| call_requires(*resolve_specifier, (f, s)),
    ensures
        match r {
            Some(g) => exists|chain: Seq<FileId>|
                #[trigger] reexport_chain(parsed@, symbol@, *resolve_specifier, chain)
                && chain[0] == start
                && chain.len() <= MAX_REEXPORT_DEPTH
                && chain.last() == g
                && parsed@.contains_key(g.0)
                && defines(parsed@[g.0].exports@, symbol@),
            None => exists|chain: Seq<FileId>|
                #[trigger] reexport_chain(parsed@, symbol@, *resolve_specifier, chain)
                && chain[0] == start
                && (chain.len() == MAX_REEXPORT_DEPTH + 1
                    || chain.len() <= MAX_REEXPORT_DEPTH
                    && reexport_dead_end(parsed@, symbol@, *resolve_specifier, chain)),
        },
{
    broadcast use vstd::std_specs::hash::group_hash_axioms;
    let mut current = start;
    let mut seen: Vec<FileId> = Vec::new();
    seen.push(start);
    let mut t: usize = 0;
    while t < MAX_REEXPORT_DEPTH
        invariant
            forall|f: FileId, s: &str| call_requires(*resolve_specifier, (f, s)),
            t <= MAX_REEXPORT_DEPTH,
            seen@.len() == t + 1,
            seen@[0] == start,
            seen@.last() == current,
            reexport_chain(parsed@, symbol@, *resolve_specifier, seen@),
        decreases MAX_REEXPORT_DEPTH - t,
    {
        let file = match parsed.get(&current.0) {
            Some(f) => f,
            None => {
                return None;
            },
        };
        if defines_locally(&file.exports, symbol) {
            return Some(current);
        }
        let named = find_forward(&file.exports, symbol);
        let next_spec = match named {
            Some(f) => f,
            None => {
                let star = find_forward(&file.exports, "*");
                proof {
                    reveal_strlit("*");
                    assert("*"@ =~= seq!['*']);
                }
                match star {
                    Some(f) => f,
                    None => {
                        assert(parsed@.contains_key(current.0) && parsed@[current.0] == *file);
                        assert(reexport_dead_end(parsed@, symbol@, *resolve_specifier, seen@));
                        return None;
                    },
                }
            },
        };
        assert(parsed@.contains_key(current.0) && parsed@[current.0] == *file);
        assert(forward_of(parsed@[current.0].exports@, symbol@) == Some(next_spec@));
        let answer = resolve_specifier(current, next_spec);
        let next = match answer {
            Some(n) => n,
            None => {
                assert(answers(*resolve_specifier, current, next_spec@, None));
                assert(reexport_link(parsed@, symbol@, *resolve_specifier, current, None));
                assert(reexport_dead_end(parsed@, symbol@, *resolve_specifier, seen@));
                return None;
            },
        };
        assert(answers(*resolve_specifier, current, next_spec@, Some(next)));
        if contains_id(&seen, next) {
            assert(reexport_link(parsed@, symbol@, *resolve_specifier, current, Some(next)));
            return None;
        }
        let ghost old_seen = seen@;
        seen.push(next);
        proof {
            assert(reexport_link(parsed@, symbol@, *resolve_specifier, current, Some(next)));
            assert forall|i: int| 0 <= i < seen@.len() - 1 implies #[trigger] reexport_link(parsed@, symbol@, *resolve_specifier, seen@[i], Some(seen@[i + 1])) by {
                if i < old_seen.len() - 1 {
                    assert(seen@[i] == old_seen[i] && seen@[i + 1] == old_seen[i + 1]);
                }
            }
        }
        current = next;
        t += 1;
    }
    None
}

/// The names an import can be traced by: only a named import has any.
pub fn traceable_symbols(names: &ImportedNames) -> (r: Option<&[String]>)
    ensures
        match *names {
            ImportedNames::Named(v) => r is Some && r.unwrap()@ == v@,
            _ => r is None,
        },
{
    match names {
        ImportedNames::Named(v) => Some(v.as_slice()),
        _ => None,
    }
}

} // verus!
