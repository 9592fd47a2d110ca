//! Rust resolution: crates, their module trees, and `use` paths.
use vstd::prelude::*;
use crate::model::{FileId, ReasonView, UnresolvedReason, result_view};
use crate::resolve::{index_id, FileIndex};
use crate::order::{count_not_before, insert_sorted, is_before, stable_sorted, str_before, strictly_sorted};
use crate::resolve::javascript::{join_rel_chars, joined_rel, non_empty, parent_dir};
use crate::text::{
    before_last, chars_eq, chars_of, concat_chars, find_char, first_index_of, last_index_of,
    last_piece, lemma_first_index_of, lemma_last_index_of, lemma_split_nonempty, replace_char,
    rfind_char, split, split_chars, str_eq, string_of, strip_both2, strip_both_of, trim, trim_chars,
};

verus! {

/// A crate of the repository: its name (with `_` for `-`), the directory of
/// its manifest, and its root files.
#[derive(Debug, Clone)]
pub struct CrateInfo {
    pub name: String,
    pub dir: String,
    pub roots: Vec<String>,
}

/// The repository's crates and module trees. `module_to_file` maps a module
/// path (`krate::a::b`) to its file, `file_to_module` a file to the first
/// module path it was reached by; each holds a key once.
#[derive(Debug, Clone)]
pub struct RustProject {
    pub crates: Vec<CrateInfo>,
    pub module_to_file: Vec<(String, String)>,
    pub file_to_module: Vec<(String, String)>,
    pub external_crates: Vec<String>,
}

impl Default for RustProject {
    fn default() -> (r: RustProject)
        ensures
            r.crates@.len() == 0,
            r.module_to_file@.len() == 0,
            r.file_to_module@.len() == 0,
            r.external_crates@.len() == 0,
    {
        RustProject {
            crates: Vec::new(),
            module_to_file: Vec::new(),
            file_to_module: Vec::new(),
            external_crates: Vec::new(),
        }
    }
}

/// The crate name as an identifier: `-` becomes `_`.
pub open spec fn normalised(name: Seq<char>) -> Seq<char> {
    name.map_values(|c: char| if c == '-' { '_' } else { c })
}

/// A crate name as it is written in paths: `-` becomes `_`.
pub fn normalise_crate_name(name: &str) -> (r: String)
    ensures
        r@ == normalised(name@),
{
    let c = chars_of(name);
    string_of(replace_char(c.as_slice(), '-', '_').as_slice())
}

/// The trimmed, unquoted, non-empty items of a list.
pub open spec fn clean_items(parts: Seq<Seq<char>>) -> Seq<Seq<char>>
    decreases parts.len(),
{
    if parts.len() == 0 {
        Seq::empty()
    } else {
        let prev = clean_items(parts.drop_last());
        let item = strip_both2(trim(parts.last()), '"', '\'');
        if item.len() > 0 {
            prev.push(item)
        } else {
            prev
        }
    }
}

/// The items of an inline TOML array on a line: between the first `[` and
/// the last `]` (or the end), split at commas.
pub open spec fn inline_array(line: Seq<char>) -> Seq<Seq<char>> {
    match first_index_of(line, '[') {
        None => Seq::empty(),
        Some(open) => {
            let close = match last_index_of(line, ']') {
                Some(c) => c,
                None => line.len() as int,
            };
            if close <= open {
                Seq::empty()
            } else {
                clean_items(split(line.subrange(open + 1, close), ','))
            }
        },
    }
}

/// The items of an inline array such as `members = ["a", "b"]`.
pub fn split_inline_array(line: &str) -> (r: Vec<String>)
    ensures
        r@.map_values(|s: String| s@) == inline_array(line@),
{
    let l = chars_of(line);
    proof {
        lemma_first_index_of(l@, '[');
        lemma_last_index_of(l@, ']');
    }
    let open = match find_char(l.as_slice(), '[') {
        Some(o) => o,
        None => {
            return Vec::new();
        },
    };
    let close = match rfind_char(l.as_slice(), ']') {
        Some(c) => c,
        None => l.len(),
    };
    if close <= open {
        return Vec::new();
    }
    let body = vstd::slice::slice_subrange(l.as_slice(), open + 1, close);
    let parts = split_chars(body, ',');
    let ghost ps = split(l@.subrange(open + 1, close as int), ',');
    let mut out: Vec<String> = Vec::new();
    let mut i: usize = 0;
    while i < parts.len()
        invariant
            i <= parts@.len(),
            parts@.len() == ps.len(),
            forall|k: int| 0 <= k < parts@.len() ==> #[trigger] parts@[k]@ == ps[k],
            out@.map_values(|s: String| s@) == clean_items(ps.take(i as int)),
        decreases parts@.len() - i,
    {
        assert(ps.take(i + 1).drop_last() == ps.take(i as int));
        assert(ps.take(i + 1).last() == parts@[i as int]@);
        let t = trim_chars(parts[i].as_slice());
        let item = strip_both_of(t.as_slice(), '"', '\'');
        if item.len() > 0 {
            let ghost before = out@;
            out.push(string_of(item.as_slice()));
            assert(out@.map_values(|s: String| s@) =~= before.map_values(|s: String| s@).push(item@));
        }
        i += 1;
    }
    assert(ps.take(i as int) == ps);
    out
}

/// What a manifest scan has gathered so far.
pub struct ManifestScan {
    pub name: Option<Seq<char>>,
    pub members: Seq<Seq<char>>,
    pub bins: Seq<Seq<char>>,
    pub deps: Seq<Seq<char>>,
    pub section: Seq<char>,
    pub pending: Option<Seq<char>>,
}

/// A dependency table.
pub open spec fn is_dep_section(s: Seq<char>) -> bool {
    s == "dependencies"@ || s == "dev-dependencies"@ || s == "build-dependencies"@
        || s == "workspace.dependencies"@
}

/// One line of a manifest: comments and blank lines are skipped; a `[...]`
/// line opens a section (closing a pending `[[bin]]` path); a `key = value`
/// line records the package name, workspace members, a bin path or a
/// dependency, according to its section.
pub open spec fn manifest_line(st: ManifestScan, raw: Seq<char>) -> ManifestScan {
    let line = trim(raw);
    if line.len() == 0 || line[0] == '#' {
        st
    } else if line[0] == '[' {
        let in_bin = st.section == "bin"@;
        ManifestScan {
            name: st.name,
            members: st.members,
            bins: if in_bin && st.pending is Some { st.bins.push(st.pending.unwrap()) } else { st.bins },
            deps: st.deps,
            section: strip_both2(line, '[', ']'),
            pending: if in_bin { None } else { st.pending },
        }
    } else {
        match first_index_of(line, '=') {
            None => st,
            Some(e) => {
                let key = trim(line.take(e));
                let value = strip_both2(trim(line.skip(e + 1)), '"', '\'');
                if st.section == "package"@ && key == "name"@ {
                    ManifestScan { name: Some(value), members: st.members, bins: st.bins, deps: st.deps, section: st.section, pending: st.pending }
                } else if st.section == "workspace"@ && key == "members"@ {
                    ManifestScan { name: st.name, members: inline_array(line), bins: st.bins, deps: st.deps, section: st.section, pending: st.pending }
                } else if st.section == "bin"@ && key == "path"@ {
                    ManifestScan { name: st.name, members: st.members, bins: st.bins, deps: st.deps, section: st.section, pending: Some(value) }
                } else if is_dep_section(st.section) {
                    ManifestScan { name: st.name, members: st.members, bins: st.bins, deps: st.deps.push(normalised(strip_both2(key, '"', '\''))), section: st.section, pending: st.pending }
                } else {
                    st
                }
            },
        }
    }
}

/// The scan after the given lines.
pub open spec fn manifest_scan(lines: Seq<Seq<char>>) -> ManifestScan
    decreases lines.len(),
{
    if lines.len() == 0 {
        ManifestScan { name: None, members: Seq::empty(), bins: Seq::empty(), deps: Seq::empty(), section: Seq::empty(), pending: None }
    } else {
        manifest_line(manifest_scan(lines.drop_last()), lines.last())
    }
}

/// The package name, workspace members, bin paths and dependencies a
/// `Cargo.toml` declares.
pub open spec fn manifest_of(text: Seq<char>) -> (Option<Seq<char>>, Seq<Seq<char>>, Seq<Seq<char>>, Seq<Seq<char>>) {
    let st = manifest_scan(split(text, '\n'));
    (st.name, st.members, if st.pending is Some { st.bins.push(st.pending.unwrap()) } else { st.bins }, st.deps)
}

pub open spec fn opt_view(o: Option<String>) -> Option<Seq<char>> {
    match o {
        Some(s) => Some(s@),
        None => None,
    }
}

pub open spec fn strings_view(v: Seq<String>) -> Seq<Seq<char>> {
    v.map_values(|s: String| s@)
}

fn push_string(v: &mut Vec<String>, s: String)
    ensures
        strings_view(final(v)@) == strings_view(old(v)@).push(s@),
{
    v.push(s);
    assert(strings_view(v@) =~= strings_view(old(v)@).push(s@));
}

fn is_dep_section_exec(s: &[char]) -> (r: bool)
    ensures
        r == is_dep_section(s@),
{
    let t = string_of(s);
    str_eq(t.as_str(), "dependencies") || str_eq(t.as_str(), "dev-dependencies")
        || str_eq(t.as_str(), "build-dependencies") || str_eq(t.as_str(), "workspace.dependencies")
}

/// Reads a `Cargo.toml`: package name, workspace members, bin paths and
/// dependency names (normalised).
pub fn read_manifest(text: &str) -> (r: (Option<String>, Vec<String>, Vec<String>, Vec<String>))
    ensures
        (opt_view(r.0), strings_view(r.1@), strings_view(r.2@), strings_view(r.3@)) == manifest_of(text@),
{
    let t = chars_of(text);
    let lines = split_chars(t.as_slice(), '\n');
    let ghost ls = split(text@, '\n');
    let mut name: Option<String> = None;
    let mut members: Vec<String> = Vec::new();
    let mut bins: Vec<String> = Vec::new();
    let mut deps: Vec<String> = Vec::new();
    let mut section: Vec<char> = Vec::new();
    let mut pending: Option<String> = None;
    let mut i: usize = 0;
    assert(strings_view(members@) =~= Seq::<Seq<char>>::empty());
    assert(strings_view(bins@) =~= Seq::<Seq<char>>::empty());
    assert(strings_view(deps@) =~= Seq::<Seq<char>>::empty());
    assert(section@ =~= Seq::<char>::empty());
    while i < lines.len()
        invariant
            i <= lines@.len(),
            ls == split(text@, '\n'),
            lines@.len() == ls.len(),
            forall|k: int| 0 <= k < lines@.len() ==> #[trigger] lines@[k]@ == ls[k],
            manifest_scan(ls.take(i as int)) == (ManifestScan {
                name: opt_view(name),
                members: strings_view(members@),
                bins: strings_view(bins@),
                deps: strings_view(deps@),
                section: section@,
                pending: opt_view(pending),
            }),
        decreases lines@.len() - i,
    {
        assert(ls.take(i + 1).drop_last() == ls.take(i as int));
        assert(ls.take(i + 1).last() == lines@[i as int]@);
        let line = trim_chars(lines[i].as_slice());
        if line.len() == 0 || line[0] == '#' {
        } else if line[0] == '[' {
            let in_bin = str_eq(string_of(section.as_slice()).as_str(), "bin");
            if in_bin {
                match pending {
                    Some(p) => {
                        push_string(&mut bins, p);
                    },
                    None => {},
                }
                pending = None;
            }
            section = strip_both_of(line.as_slice(), '[', ']');
        } else {
            proof {
                lemma_first_index_of(line@, '=');
            }
            match find_char(line.as_slice(), '=') {
                None => {},
                Some(e) => {
                    let n = line.len();
                    let key = trim_chars(vstd::slice::slice_subrange(line.as_slice(), 0, e));
                    let raw_value = trim_chars(vstd::slice::slice_subrange(line.as_slice(), e + 1, n));
                    let value = strip_both_of(raw_value.as_slice(), '"', '\'');
                    assert(line@.subrange(0, e as int) =~= line@.take(e as int));
                    assert(line@.subrange(e + 1, n as int) =~= line@.skip(e + 1));
                    let sec = string_of(section.as_slice());
                    let k = string_of(key.as_slice());
                    if str_eq(sec.as_str(), "package") && str_eq(k.as_str(), "name") {
                        name = Some(string_of(value.as_slice()));
                    } else if str_eq(sec.as_str(), "workspace") && str_eq(k.as_str(), "members") {
                        members = split_inline_array(string_of(line.as_slice()).as_str());
                    } else if str_eq(sec.as_str(), "bin") && str_eq(k.as_str(), "path") {
                        pending = Some(string_of(value.as_slice()));
                    } else if is_dep_section_exec(section.as_slice()) {
                        let unquoted = strip_both_of(key.as_slice(), '"', '\'');
                        let dep = normalise_crate_name(string_of(unquoted.as_slice()).as_str());
                        push_string(&mut deps, dep);
                    }
                },
            }
        }
        i += 1;
    }
    assert(ls.take(i as int) == ls);
    match pending {
        Some(p) => {
            push_string(&mut bins, p);
        },
        None => {},
    }
    (name, members, bins, deps)
}

/// The `::`-separated pieces of `s`, as `str::split("::")` yields them.
pub open spec fn path_split(s: Seq<char>) -> Seq<Seq<char>>
    decreases s.len(),
{
    if s.len() == 0 {
        seq![Seq::<char>::empty()]
    } else if s.len() >= 2 && s[0] == ':' && s[1] == ':' {
        seq![Seq::<char>::empty()] + path_split(s.skip(2))
    } else {
        let r = path_split(s.drop_first());
        r.update(0, seq![s[0]] + r[0])
    }
}

/// The pieces joined with `::`.
pub open spec fn path_join(parts: Seq<Seq<char>>) -> Seq<char>
    decreases parts.len(),
{
    if parts.len() == 0 {
        Seq::empty()
    } else if parts.len() == 1 {
        parts[0]
    } else {
        path_join(parts.drop_last()) + seq![':', ':'] + parts.last()
    }
}

/// `s` with every `::` replaced by `/`.
pub open spec fn dcolon_to_slash(s: Seq<char>) -> Seq<char>
    decreases s.len(),
{
    if s.len() == 0 {
        s
    } else if s.len() >= 2 && s[0] == ':' && s[1] == ':' {
        seq!['/'] + dcolon_to_slash(s.skip(2))
    } else {
        seq![s[0]] + dcolon_to_slash(s.drop_first())
    }
}

pub proof fn lemma_path_split_nonempty(s: Seq<char>)
    ensures
        path_split(s).len() >= 1,
    decreases s.len(),
{
    if s.len() >= 2 && s[0] == ':' && s[1] == ':' {
        lemma_path_split_nonempty(s.skip(2));
    } else if s.len() > 0 {
        lemma_path_split_nonempty(s.drop_first());
    }
}

/// The `::`-separated pieces of `s`.
pub fn split_path(s: &[char]) -> (r: Vec<Vec<char>>)
    ensures
        r@.map_values(|p: Vec<char>| p@) == path_split(s@),
{
    let mut done: Vec<Vec<char>> = Vec::new();
    let mut cur: Vec<char> = Vec::new();
    let mut i: usize = 0;
    assert(s@.skip(0) =~= s@);
    proof {
        lemma_path_split_nonempty(s@);
    }
    while i < s.len()
        invariant
            i <= s.len(),
            path_split(s@.skip(i as int)).len() >= 1,
            path_split(s@) == done@.map_values(|p: Vec<char>| p@) + path_split(s@.skip(i as int)).update(0, cur@ + path_split(s@.skip(i as int))[0]),
        decreases s.len() - i,
    {
        let ghost t = s@.skip(i as int);
        if i + 1 < s.len() && s[i] == ':' && s[i + 1] == ':' {
            assert(t.skip(2) =~= s@.skip(i + 2));
            proof {
                lemma_path_split_nonempty(s@.skip(i + 2));
            }
            let ghost before = done@.map_values(|p: Vec<char>| p@);
            let ghost c = cur@;
            done.push(cur);
            cur = Vec::new();
            assert(done@.map_values(|p: Vec<char>| p@) =~= before.push(c));
            let ghost r = path_split(s@.skip(i + 2));
            assert(path_split(t) == seq![Seq::<char>::empty()] + r);
            assert(path_split(t).update(0, c + path_split(t)[0]) =~= seq![c] + r);
            assert(r.update(0, cur@ + r[0]) =~= r);
            i += 2;
        } else {
            assert(t.drop_first() =~= s@.skip(i + 1));
            proof {
                lemma_path_split_nonempty(s@.skip(i + 1));
            }
            let ghost c = cur@;
            let ghost r = path_split(s@.skip(i + 1));
            cur.push(s[i]);
            assert(path_split(t) == r.update(0, seq![s@[i as int]] + r[0]));
            assert(c + (seq![s@[i as int]] + r[0]) =~= cur@ + r[0]);
            assert(path_split(t).update(0, c + path_split(t)[0]) =~= r.update(0, cur@ + r[0]));
            i += 1;
        }
    }
    let ghost before = done@.map_values(|p: Vec<char>| p@);
    let ghost c = cur@;
    done.push(cur);
    assert(s@.skip(i as int) =~= Seq::<char>::empty());
    assert(done@.map_values(|p: Vec<char>| p@) =~= before.push(c));
    done
}

/// `s` with `::` made `/`.
pub fn dcolons_as_slashes(s: &[char]) -> (r: Vec<char>)
    ensures
        r@ == dcolon_to_slash(s@),
{
    let mut out: Vec<char> = Vec::new();
    let mut i: usize = 0;
    assert(s@.skip(0) =~= s@);
    while i < s.len()
        invariant
            i <= s.len(),
            dcolon_to_slash(s@) == out@ + dcolon_to_slash(s@.skip(i as int)),
        decreases s.len() - i,
    {
        let ghost t = s@.skip(i as int);
        if i + 1 < s.len() && s[i] == ':' && s[i + 1] == ':' {
            assert(t.skip(2) =~= s@.skip(i + 2));
            out.push('/');
            i += 2;
        } else {
            assert(t.drop_first() =~= s@.skip(i + 1));
            out.push(s[i]);
            i += 1;
        }
    }
    assert(s@.skip(i as int) =~= Seq::<char>::empty());
    assert(out@ =~= out@ + Seq::<char>::empty());
    out
}

/// The pieces joined with `::`.
pub fn join_path(parts: &[Vec<char>]) -> (r: Vec<char>)
    ensures
        r@ == path_join(parts@.map_values(|p: Vec<char>| p@)),
{
    let ghost ps = parts@.map_values(|p: Vec<char>| p@);
    let mut out: Vec<char> = Vec::new();
    let mut i: usize = 0;
    while i < parts.len()
        invariant
            i <= parts@.len(),
            ps == parts@.map_values(|p: Vec<char>| p@),
            out@ == path_join(ps.take(i as int)),
        decreases parts@.len() - i,
    {
        assert(ps.take(i + 1).drop_last() == ps.take(i as int));
        if i > 0 {
            out.push(':');
            out.push(':');
        }
        let ghost o = out@;
        out = concat_chars(out.as_slice(), parts[i].as_slice());
        i += 1;
        if i == 1 {
            assert(ps.take(1) =~= seq![ps[0]]);
            assert(out@ =~= ps[0]);
        } else {
            assert(o =~= path_join(ps.take(i - 1)) + seq![':', ':']);
        }
    }
    assert(ps.take(i as int) == ps);
    out
}

/// The value of key `k`: that of the last entry with this key.
pub open spec fn lookup_last(entries: Seq<(String, String)>, k: Seq<char>) -> Option<Seq<char>>
    decreases entries.len(),
{
    if entries.len() == 0 {
        None
    } else if entries.last().0@ == k {
        Some(entries.last().1@)
    } else {
        lookup_last(entries.drop_last(), k)
    }
}

proof fn lemma_lookup_update(s: Seq<(String, String)>, j: int, e: (String, String))
    requires
        0 <= j < s.len(),
        s[j].0@ == e.0@,
        forall|m: int| j < m < s.len() ==> #[trigger] s[m].0@ != e.0@,
    ensures
        forall|q: Seq<char>| #[trigger] lookup_last(s.update(j, e), q) == if q == e.0@ { Some(e.1@) } else { lookup_last(s, q) },
    decreases s.len(),
{
    let u = s.update(j, e);
    if j < s.len() - 1 {
        assert(u.drop_last() =~= s.drop_last().update(j, e));
        lemma_lookup_update(s.drop_last(), j, e);
        assert(s.last().0@ != e.0@);
        assert(u.last() == s.last());
        assert forall|q: Seq<char>| #[trigger] lookup_last(u, q) == if q == e.0@ { Some(e.1@) } else { lookup_last(s, q) } by {
            assert(lookup_last(s.drop_last().update(j, e), q) == if q == e.0@ { Some(e.1@) } else { lookup_last(s.drop_last(), q) });
        }
    } else {
        assert(u.drop_last() =~= s.drop_last());
        assert(u.last() == e);
        assert forall|q: Seq<char>| #[trigger] lookup_last(u, q) == if q == e.0@ { Some(e.1@) } else { lookup_last(s, q) } by {
        }
    }
}

/// The value stored under `k`.
pub fn lookup_entry<'a>(v: &'a Vec<(String, String)>, k: &str) -> (r: Option<&'a str>)
    ensures
        match r {
            Some(x) => lookup_last(v@, k@) == Some(x@),
            None => lookup_last(v@, k@) is None,
        },
{
    let mut i = v.len();
    assert(v@.take(i as int) =~= v@);
    while i > 0
        invariant
            i <= v@.len(),
            lookup_last(v@, k@) == lookup_last(v@.take(i as int), k@),
        decreases i,
    {
        assert(v@.take(i as int).drop_last() =~= v@.take(i - 1));
        if str_eq(v[i - 1].0.as_str(), k) {
            return Some(v[i - 1].1.as_str());
        }
        i -= 1;
    }
    None
}

/// Stores `val` under `k`, replacing what was there.
pub fn put_entry(v: &mut Vec<(String, String)>, k: String, val: String)
    ensures
        forall|q: Seq<char>| #[trigger] lookup_last(final(v)@, q) == if q == k@ { Some(val@) } else { lookup_last(old(v)@, q) },
{
    let mut i = v.len();
    while i > 0
        invariant
            i <= v@.len(),
            v@ == old(v)@,
            forall|m: int| i <= m < v@.len() ==> #[trigger] v@[m].0@ != k@,
        decreases i,
    {
        if str_eq(v[i - 1].0.as_str(), k.as_str()) {
            proof {
                lemma_lookup_update(v@, i - 1, (k, val));
            }
            v.set(i - 1, (k, val));
            return;
        }
        i -= 1;
    }
    proof {
        lemma_lookup_absent(v@, k@);
    }
    v.push((k, val));
    assert(v@.drop_last() =~= old(v)@);
}

proof fn lemma_lookup_absent(s: Seq<(String, String)>, k: Seq<char>)
    requires
        forall|m: int| 0 <= m < s.len() ==> #[trigger] s[m].0@ != k,
    ensures
        lookup_last(s, k) is None,
    decreases s.len(),
{
    if s.len() > 0 {
        assert forall|m: int| 0 <= m < s.drop_last().len() implies #[trigger] s.drop_last()[m].0@ != k by {
            assert(s.drop_last()[m] == s[m]);
        }
        lemma_lookup_absent(s.drop_last(), k);
    }
}

/// Stores `val` under `k` unless `k` already has a value.
pub fn put_entry_absent(v: &mut Vec<(String, String)>, k: String, val: String)
    ensures
        forall|q: Seq<char>| #[trigger] lookup_last(final(v)@, q) == if q == k@ && lookup_last(old(v)@, k@) is None { Some(val@) } else { lookup_last(old(v)@, q) },
{
    if lookup_entry(v, k.as_str()).is_none() {
        put_entry(v, k, val);
    }
}

/// The file is a crate root or a `mod.rs`: its modules live in its own directory.
pub open spec fn is_crate_root_file(file: Seq<char>) -> bool {
    let name = last_piece(file, '/');
    let last_dir = last_piece(before_last(file, '/'), '/');
    name == "lib.rs"@ || name == "main.rs"@ || name == "mod.rs"@ || last_dir == "tests"@
        || last_dir == "benches"@ || last_dir == "examples"@
}

/// Whether a file's child modules live beside it (a crate root, `mod.rs`, or a
/// file directly under `tests`, `benches` or `examples`).
pub fn is_crate_root(file: &str) -> (r: bool)
    ensures
        r == is_crate_root_file(file@),
{
    let f = chars_of(file);
    let name = string_of(crate::resolve::python::last_piece_of(f.as_slice()).as_slice());
    if str_eq(name.as_str(), "lib.rs") || str_eq(name.as_str(), "main.rs") || str_eq(name.as_str(), "mod.rs") {
        return true;
    }
    let dir = parent_dir(f.as_slice());
    let last = string_of(crate::resolve::python::last_piece_of(dir.as_slice()).as_slice());
    str_eq(last.as_str(), "tests") || str_eq(last.as_str(), "benches") || str_eq(last.as_str(), "examples")
}

/// `name` without a final `.rs`.
pub open spec fn rs_stem(name: Seq<char>) -> Seq<char> {
    if crate::text::is_suffix(".rs"@, name) {
        name.take(name.len() - ".rs"@.len())
    } else {
        name
    }
}

/// The directory a file's child modules live in.
pub open spec fn module_dir_of(file: Seq<char>) -> Seq<char> {
    if is_crate_root_file(file) {
        before_last(file, '/')
    } else {
        joined_rel(before_last(file, '/'), rs_stem(last_piece(file, '/')))
    }
}

/// The directory the child modules of `file` live in.
pub fn module_dir(file: &str) -> (r: String)
    ensures
        r@ == module_dir_of(file@),
{
    let f = chars_of(file);
    let dir = parent_dir(f.as_slice());
    if is_crate_root(file) {
        return string_of(dir.as_slice());
    }
    let name = crate::resolve::python::last_piece_of(f.as_slice());
    let ext = chars_of(".rs");
    let stem = if crate::text::ends_with(name.as_slice(), ext.as_slice()) {
        vstd::slice::slice_to_vec(vstd::slice::slice_subrange(name.as_slice(), 0, name.len() - ext.len()))
    } else {
        name
    };
    string_of(join_rel_chars(dir.as_slice(), stem.as_slice()).as_slice())
}

/// `base` descended into an inline-module scope (`a::b` is `a/b`).
pub open spec fn scoped(base: Seq<char>, scope: Option<Seq<char>>) -> Seq<char> {
    match scope {
        Some(s) => if s.len() > 0 { joined_rel(base, dcolon_to_slash(s)) } else { base },
        None => base,
    }
}

pub open spec fn opt_str(o: Option<&str>) -> Option<Seq<char>> {
    match o {
        Some(s) => Some(s@),
        None => None,
    }
}

fn scoped_dir(base: Vec<char>, scope: Option<&str>) -> (r: Vec<char>)
    ensures
        r@ == scoped(base@, opt_str(scope)),
{
    match scope {
        Some(s) => {
            let sc = chars_of(s);
            if sc.len() > 0 {
                let sl = dcolons_as_slashes(sc.as_slice());
                join_rel_chars(base.as_slice(), sl.as_slice())
            } else {
                base
            }
        },
        None => base,
    }
}

/// Where a `#[path]` attribute is taken from: the file's own directory,
/// descended into the scope.
pub fn path_attr_base(file: &str, scope: Option<&str>) -> (r: String)
    ensures
        r@ == scoped(before_last(file@, '/'), opt_str(scope)),
{
    let f = chars_of(file);
    string_of(scoped_dir(parent_dir(f.as_slice()), scope).as_slice())
}

/// The file a `mod name;` in `file` (inside `scope`) loads: `name.rs`, else
/// `name/mod.rs`, in the module directory.
pub open spec fn module_file_for(paths: Seq<Seq<char>>, file: Seq<char>, name: Seq<char>, scope: Option<Seq<char>>) -> Option<Seq<char>> {
    let dir = scoped(module_dir_of(file), scope);
    let flat = joined_rel(dir, name + ".rs"@);
    let nested = joined_rel(dir, name + "/mod.rs"@);
    if paths.contains(flat) {
        Some(flat)
    } else if paths.contains(nested) {
        Some(nested)
    } else {
        None
    }
}

fn find_module_file_scoped(parent_file: &str, name: &[char], scope: Option<&str>, index: &FileIndex) -> (r: Option<String>)
    requires
        index.wf(),
    ensures
        match r {
            Some(f) => module_file_for(index.path_texts(), parent_file@, name@, opt_str(scope)) == Some(f@),
            None => module_file_for(index.path_texts(), parent_file@, name@, opt_str(scope)) is None,
        },
{
    let md = chars_of(module_dir(parent_file).as_str());
    let dir = scoped_dir(md, scope);
    let flat = string_of(join_rel_chars(dir.as_slice(), concat_chars(name, chars_of(".rs").as_slice()).as_slice()).as_slice());
    if index.contains(flat.as_str()) {
        return Some(flat);
    }
    let nested = string_of(join_rel_chars(dir.as_slice(), concat_chars(name, chars_of("/mod.rs").as_slice()).as_slice()).as_slice());
    if index.contains(nested.as_str()) {
        return Some(nested);
    }
    None
}

/// How a `mod` declaration resolves: with a `#[path]` (after `\u{1}`) against
/// the file's directory, otherwise to `name.rs` or `name/mod.rs`.
pub open spec fn mod_decl_outcome(paths: Seq<Seq<char>>, from: Seq<char>, s: Seq<char>, scope: Option<Seq<char>>) -> Result<FileId, ReasonView> {
    match first_index_of(s, '\u{1}') {
        Some(k) => {
            let cand = joined_rel(scoped(before_last(from, '/'), scope), s.skip(k + 1));
            match index_id(paths, cand) {
                Some(id) => Ok(id),
                None => Err(ReasonView::NoSuchFile(cand)),
            }
        },
        None => match module_file_for(paths, from, s, scope) {
            Some(f) => match index_id(paths, f) {
                Some(id) => Ok(id),
                None => Err(ReasonView::NoSuchFile("mod "@ + s)),
            },
            None => Err(ReasonView::NoSuchFile("mod "@ + s)),
        },
    }
}

/// The module the importing file (and scope) stands for, if it is in a tree.
pub open spec fn current_module(f2m: Seq<(String, String)>, from: Seq<char>, scope: Option<Seq<char>>) -> Option<Seq<char>> {
    match lookup_last(f2m, from) {
        Some(m) => Some(
            match scope {
                Some(sc) => if sc.len() > 0 { m + seq![':', ':'] + sc } else { m },
                None => m,
            },
        ),
        None => None,
    }
}

/// Each leading `super` drops one module; none may drop the crate itself.
pub open spec fn climb(parts: Seq<Seq<char>>, rest: Seq<Seq<char>>) -> Option<(Seq<Seq<char>>, Seq<Seq<char>>)>
    decreases rest.len(),
{
    if rest.len() > 0 && rest[0] == "super"@ {
        if parts.len() <= 1 {
            None
        } else {
            climb(parts.drop_last(), rest.drop_first())
        }
    } else {
        Some((parts, rest))
    }
}

/// Some crate of the project has this name.
pub open spec fn is_local_crate(crates: Seq<CrateInfo>, n: Seq<char>) -> bool {
    exists|i: int| 0 <= i < crates.len() && #[trigger] crates[i].name@ == n
}

/// The path made absolute (`crate`, `self`, `super` replaced; a first
/// segment naming no local crate is an outside crate).
pub open spec fn absolute_path(s: Seq<char>, segs: Seq<Seq<char>>, current: Option<Seq<char>>, crates: Seq<CrateInfo>) -> Result<Seq<char>, ReasonView> {
    let first = segs[0];
    if first == "crate"@ {
        match current {
            None => Err(ReasonView::NoSuchFile(s)),
            Some(c) => Ok(path_join(seq![path_split(c)[0]] + segs.skip(1))),
        }
    } else if first == "self"@ {
        match current {
            None => Err(ReasonView::NoSuchFile(s)),
            Some(c) => Ok(path_join(seq![c] + segs.skip(1))),
        }
    } else if first == "super"@ {
        match current {
            None => Err(ReasonView::NoSuchFile(s)),
            Some(c) => match climb(path_split(c), segs) {
                None => Err(ReasonView::NoSuchFile(s)),
                Some(pr) => Ok(path_join(pr.0 + pr.1)),
            },
        }
    } else {
        let n = normalised(first);
        if is_local_crate(crates, n) {
            Ok(path_join(seq![n] + segs.skip(1)))
        } else {
            Err(ReasonView::External(n))
        }
    }
}

/// The file of the longest prefix of `parts` (at most `t` pieces) that names
/// a module whose file was scanned.
pub open spec fn module_hit(m2f: Seq<(String, String)>, paths: Seq<Seq<char>>, parts: Seq<Seq<char>>, t: int) -> Option<FileId>
    decreases t,
{
    if t <= 0 {
        None
    } else {
        match lookup_last(m2f, path_join(parts.take(t))) {
            Some(f) => match index_id(paths, f) {
                Some(id) => Some(id),
                None => module_hit(m2f, paths, parts, t - 1),
            },
            None => module_hit(m2f, paths, parts, t - 1),
        }
    }
}

/// How a `use` path (or other path) written in `from` resolves: it is made
/// absolute, then its longest prefix naming a module gives the file.
pub open spec fn use_outcome(paths: Seq<Seq<char>>, from: Seq<char>, s: Seq<char>, scope: Option<Seq<char>>, p: RustProject) -> Result<FileId, ReasonView> {
    let segs = non_empty(path_split(s));
    if segs.len() == 0 {
        Err(ReasonView::NoSuchFile(s))
    } else {
        let cur = current_module(p.file_to_module@, from, scope);
        let needs = segs[0] == "crate"@ || segs[0] == "self"@ || segs[0] == "super"@;
        if needs && cur is None {
            Err(ReasonView::FileNotInModuleTree)
        } else {
            match absolute_path(s, segs, cur, p.crates@) {
                Err(e) => Err(e),
                Ok(a) => {
                    let parts = path_split(a);
                    match module_hit(p.module_to_file@, paths, parts, parts.len() as int) {
                        Some(id) => Ok(id),
                        None => Err(ReasonView::NoSuchFile(s)),
                    }
                },
            }
        }
    }
}

/// The outcome of a Rust reference: a `mod` declaration or a path.
pub open spec fn rust_outcome(paths: Seq<Seq<char>>, from: Seq<char>, s: Seq<char>, is_mod_decl: bool, scope: Option<Seq<char>>, p: RustProject) -> Result<FileId, ReasonView> {
    if is_mod_decl {
        mod_decl_outcome(paths, from, s, scope)
    } else {
        use_outcome(paths, from, s, scope, p)
    }
}

fn non_empty_pieces(parts: Vec<Vec<char>>) -> (r: Vec<Vec<char>>)
    ensures
        r@.map_values(|p: Vec<char>| p@) == non_empty(parts@.map_values(|p: Vec<char>| p@)),
{
    let ghost ps = parts@.map_values(|p: Vec<char>| p@);
    let mut out: Vec<Vec<char>> = Vec::new();
    let mut i: usize = 0;
    while i < parts.len()
        invariant
            i <= parts@.len(),
            ps == parts@.map_values(|p: Vec<char>| p@),
            out@.map_values(|p: Vec<char>| p@) == non_empty(ps.take(i as int)),
        decreases parts@.len() - i,
    {
        assert(ps.take(i + 1).drop_last() == ps.take(i as int));
        if parts[i].len() > 0 {
            let ghost before = out@;
            out.push(vstd::slice::slice_to_vec(parts[i].as_slice()));
            assert(out@.map_values(|p: Vec<char>| p@) =~= before.map_values(|p: Vec<char>| p@).push(ps[i as int]));
        }
        i += 1;
    }
    assert(ps.take(i as int) == ps);
    out
}

fn resolve_mod_decl(from_path: &str, s: &[char], scope: Option<&str>, index: &FileIndex) -> (r: Result<FileId, UnresolvedReason>)
    requires
        index.wf(),
    ensures
        result_view(r) == mod_decl_outcome(index.path_texts(), from_path@, s@, opt_str(scope)),
{
    proof {
        lemma_first_index_of(s@, '\u{1}');
    }
    match find_char(s, '\u{1}') {
        Some(k) => {
            let n = s.len();
            let p = vstd::slice::slice_subrange(s, k + 1, n);
            assert(p@ =~= s@.skip(k + 1));
            let base = chars_of(path_attr_base(from_path, scope).as_str());
            let cand = string_of(join_rel_chars(base.as_slice(), p).as_slice());
            match index.id(cand.as_str()) {
                Some(id) => Ok(id),
                None => Err(UnresolvedReason::NoSuchFile(cand)),
            }
        },
        None => {
            let msg = concat_chars(chars_of("mod ").as_slice(), s);
            match find_module_file_scoped(from_path, s, scope, index) {
                Some(f) => match index.id(f.as_str()) {
                    Some(id) => Ok(id),
                    None => Err(UnresolvedReason::NoSuchFile(string_of(msg.as_slice()))),
                },
                None => Err(UnresolvedReason::NoSuchFile(string_of(msg.as_slice()))),
            }
        },
    }
}

fn current_module_of(p: &RustProject, from_path: &str, scope: Option<&str>) -> (r: Option<Vec<char>>)
    ensures
        match r {
            Some(m) => current_module(p.file_to_module@, from_path@, opt_str(scope)) == Some(m@),
            None => current_module(p.file_to_module@, from_path@, opt_str(scope)) is None,
        },
{
    match lookup_entry(&p.file_to_module, from_path) {
        None => None,
        Some(m) => {
            let mc = chars_of(m);
            match scope {
                Some(sc) => {
                    let scc = chars_of(sc);
                    if scc.len() > 0 {
                        let mut d = mc;
                        d.push(':');
                        d.push(':');
                        let r = concat_chars(d.as_slice(), scc.as_slice());
                        assert(r@ =~= m@ + seq![':', ':'] + sc@);
                        Some(r)
                    } else {
                        Some(mc)
                    }
                },
                None => Some(mc),
            }
        },
    }
}

fn is_word(s: &[char], w: &str) -> (r: bool)
    ensures
        r == (s@ == w@),
{
    let v = chars_of(w);
    chars_eq(s, v.as_slice())
}

/// Appends copies of `segs[from..]` to `parts`.
fn extend_from(parts: &mut Vec<Vec<char>>, segs: &Vec<Vec<char>>, from: usize)
    requires
        from <= segs@.len(),
    ensures
        final(parts)@.map_values(|p: Vec<char>| p@) == old(parts)@.map_values(|p: Vec<char>| p@) + segs@.map_values(|p: Vec<char>| p@).skip(from as int),
{
    let ghost start = parts@.map_values(|p: Vec<char>| p@);
    let ghost all = segs@.map_values(|p: Vec<char>| p@);
    let mut i = from;
    while i < segs.len()
        invariant
            from <= i <= segs@.len(),
            all == segs@.map_values(|p: Vec<char>| p@),
            parts@.map_values(|p: Vec<char>| p@) == start + all.subrange(from as int, i as int),
        decreases segs@.len() - i,
    {
        let ghost before = parts@.map_values(|p: Vec<char>| p@);
        parts.push(vstd::slice::slice_to_vec(segs[i].as_slice()));
        assert(parts@.map_values(|p: Vec<char>| p@) =~= before.push(all[i as int]));
        assert(all.subrange(from as int, i + 1) =~= all.subrange(from as int, i as int).push(all[i as int]));
        i += 1;
    }
    assert(all.subrange(from as int, i as int) =~= all.skip(from as int));
}

fn absolute_of(s: &[char], segs: &Vec<Vec<char>>, current: Option<Vec<char>>, crates: &Vec<CrateInfo>) -> (r: Result<Vec<char>, UnresolvedReason>)
    requires
        segs@.len() > 0,
    ensures
        match r {
            Ok(a) => absolute_path(s@, segs@.map_values(|p: Vec<char>| p@), match current { Some(c) => Some(c@), None => None }, crates@) == Ok::<Seq<char>, ReasonView>(a@),
            Err(e) => absolute_path(s@, segs@.map_values(|p: Vec<char>| p@), match current { Some(c) => Some(c@), None => None }, crates@) == Err::<Seq<char>, ReasonView>(e@),
        },
{
    let ghost ss = segs@.map_values(|p: Vec<char>| p@);
    let first = &segs[0];
    assert(first@ == ss[0]);
    if is_word(first.as_slice(), "crate") || is_word(first.as_slice(), "self") {
        let c = match current {
            None => {
                return Err(UnresolvedReason::NoSuchFile(string_of(s)));
            },
            Some(c) => c,
        };
        let mut parts: Vec<Vec<char>> = Vec::new();
        let ghost cv = c@;
        if is_word(first.as_slice(), "crate") {
            let pieces = split_path(c.as_slice());
            proof {
                lemma_path_split_nonempty(c@);
            }
            parts.push(vstd::slice::slice_to_vec(pieces[0].as_slice()));
            assert(parts@.map_values(|p: Vec<char>| p@) =~= seq![path_split(cv)[0]]);
        } else {
            parts.push(c);
            assert(parts@.map_values(|p: Vec<char>| p@) =~= seq![cv]);
        }
        extend_from(&mut parts, segs, 1);
        return Ok(join_path(parts.as_slice()));
    }
    if is_word(first.as_slice(), "super") {
        let c = match current {
            None => {
                return Err(UnresolvedReason::NoSuchFile(string_of(s)));
            },
            Some(c) => c,
        };
        let mut parts = split_path(c.as_slice());
        let mut j: usize = 0;
        assert(ss.skip(0) =~= ss);
        while j < segs.len() && is_word(segs[j].as_slice(), "super")
            invariant
                j <= segs@.len(),
                ss == segs@.map_values(|p: Vec<char>| p@),
                ss[0] == "super"@,
                ss[0] != "crate"@,
                ss[0] != "self"@,
                current is Some,
                current.unwrap()@ == c@,
                climb(path_split(c@), ss) == climb(parts@.map_values(|p: Vec<char>| p@), ss.skip(j as int)),
            decreases segs@.len() - j,
        {
            assert(ss.skip(j as int)[0] == segs@[j as int]@);
            if parts.len() <= 1 {
                return Err(UnresolvedReason::NoSuchFile(string_of(s)));
            }
            let ghost before = parts@.map_values(|p: Vec<char>| p@);
            parts.pop();
            assert(parts@.map_values(|p: Vec<char>| p@) =~= before.drop_last());
            assert(ss.skip(j as int).drop_first() =~= ss.skip(j + 1));
            j += 1;
        }
        proof {
            if j < segs@.len() {
                assert(ss.skip(j as int)[0] == segs@[j as int]@);
            }
        }
        extend_from(&mut parts, segs, j);
        return Ok(join_path(parts.as_slice()));
    }
    let n = replace_char(first.as_slice(), '-', '_');
    let ns = string_of(n.as_slice());
    let mut i: usize = 0;
    let mut local = false;
    while i < crates.len() && !local
        invariant
            i <= crates@.len(),
            ns@ == n@,
            local ==> is_local_crate(crates@, n@),
            !local ==> forall|k: int| 0 <= k < i ==> #[trigger] crates@[k].name@ != n@,
        decreases crates@.len() - i,
    {
        if str_eq(crates[i].name.as_str(), ns.as_str()) {
            local = true;
        }
        i += 1;
    }
    if !local {
        return Err(UnresolvedReason::External(ns));
    }
    let mut parts: Vec<Vec<char>> = Vec::new();
    let ghost nv = n@;
    assert(nv == normalised(ss[0]));
    parts.push(n);
    assert(parts@.map_values(|p: Vec<char>| p@) =~= seq![nv]);
    extend_from(&mut parts, segs, 1);
    Ok(join_path(parts.as_slice()))
}

/// Resolves a Rust reference written in `from_path` inside inline-module
/// `scope`: a `mod` declaration (`name`, or `name\u{1}path` for a `#[path]`),
/// or a path such as `crate::a::B`.
pub fn resolve_specifier_scoped(
    from_path: &str,
    specifier: &str,
    is_mod_decl: bool,
    scope: Option<&str>,
    index: &FileIndex,
    project: &RustProject,
) -> (r: Result<FileId, UnresolvedReason>)
    requires
        index.wf(),
    ensures
        result_view(r) == rust_outcome(index.path_texts(), from_path@, specifier@, is_mod_decl, opt_str(scope), *project),
{
    let s = chars_of(specifier);
    if is_mod_decl {
        return resolve_mod_decl(from_path, s.as_slice(), scope, index);
    }
    let segs = non_empty_pieces(split_path(s.as_slice()));
    if segs.len() == 0 {
        return Err(UnresolvedReason::NoSuchFile(string_of(s.as_slice())));
    }
    let cur = current_module_of(project, from_path, scope);
    let needs = is_word(segs[0].as_slice(), "crate") || is_word(segs[0].as_slice(), "self") || is_word(segs[0].as_slice(), "super");
    if needs && cur.is_none() {
        return Err(UnresolvedReason::FileNotInModuleTree);
    }
    let a = match absolute_of(s.as_slice(), &segs, cur, &project.crates) {
        Ok(a) => a,
        Err(e) => {
            return Err(e);
        },
    };
    let parts = split_path(a.as_slice());
    match find_module_hit(&parts, &project.module_to_file, index) {
        Some(id) => Ok(id),
        None => Err(UnresolvedReason::NoSuchFile(string_of(s.as_slice()))),
    }
}

fn find_module_hit(parts: &Vec<Vec<char>>, m2f: &Vec<(String, String)>, index: &FileIndex) -> (r: Option<FileId>)
    requires
        index.wf(),
    ensures
        r == module_hit(m2f@, index.path_texts(), parts@.map_values(|p: Vec<char>| p@), parts@.len() as int),
{
    let ghost ps = parts@.map_values(|p: Vec<char>| p@);
    let ghost paths = index.path_texts();
    let mut t = parts.len();
    while t > 0
        invariant
            index.wf(),
            paths == index.path_texts(),
            t <= parts@.len(),
            ps == parts@.map_values(|p: Vec<char>| p@),
            module_hit(m2f@, paths, ps, ps.len() as int) == module_hit(m2f@, paths, ps, t as int),
        decreases t,
    {
        let prefix = vstd::slice::slice_subrange(parts.as_slice(), 0, t);
        let cand = join_path(prefix);
        assert(prefix@.map_values(|p: Vec<char>| p@) =~= ps.take(t as int));
        let cs = string_of(cand.as_slice());
        if let Some(file) = lookup_entry(m2f, cs.as_str()) {
            if let Some(id) = index.id(file) {
                return Some(id);
            }
        }
        t -= 1;
    }
    None
}

/// Resolves a Rust reference written at the top level of `from_path`.
pub fn resolve_specifier(
    from_path: &str,
    specifier: &str,
    is_mod_decl: bool,
    index: &FileIndex,
    project: &RustProject,
) -> (r: Result<FileId, UnresolvedReason>)
    requires
        index.wf(),
    ensures
        result_view(r) == rust_outcome(index.path_texts(), from_path@, specifier@, is_mod_decl, None, *project),
{
    resolve_specifier_scoped(from_path, specifier, is_mod_decl, None, index, project)
}

/// The map a list of entries stands for (the last entry of a key counts).
pub open spec fn entries_map(v: Seq<(String, String)>) -> Map<Seq<char>, Seq<char>> {
    Map::new(|q: Seq<char>| lookup_last(v, q) is Some, |q: Seq<char>| lookup_last(v, q).unwrap())
}

#[verifier::ext_equal]
/// Where a walk of a module tree stands: files still to visit (with their
/// module paths, the last visited next), files visited, and the two maps.
pub struct WalkState {
    pub queue: Seq<(Seq<char>, Seq<char>)>,
    pub seen: Seq<Seq<char>>,
    pub m2f: Map<Seq<char>, Seq<char>>,
    pub f2m: Map<Seq<char>, Seq<char>>,
}

/// The `mod` declarations recorded for a file (the last record counts).
pub open spec fn decls_of(parsed: Seq<(String, Vec<String>)>, file: Seq<char>) -> Option<Seq<Seq<char>>>
    decreases parsed.len(),
{
    if parsed.len() == 0 {
        None
    } else if parsed.last().0@ == file {
        Some(parsed.last().1@.map_values(|d: String| d@))
    } else {
        decls_of(parsed.drop_last(), file)
    }
}

/// The child module a declaration in `file` names, with its file, if scanned:
/// `name\u{1}path` goes to `path` beside the file, `name` to `name.rs` or
/// `name/mod.rs` in the file's module directory.
pub open spec fn child_of(paths: Seq<Seq<char>>, file: Seq<char>, decl: Seq<char>) -> Option<(Seq<char>, Seq<char>)> {
    match first_index_of(decl, '\u{1}') {
        Some(k) => {
            let cand = joined_rel(before_last(file, '/'), decl.skip(k + 1));
            if paths.contains(cand) {
                Some((decl.take(k), cand))
            } else {
                None
            }
        },
        None => match module_file_for(paths, file, decl, None) {
            Some(f) => Some((decl, f)),
            None => None,
        },
    }
}

/// Records the children a file declares: each gets its module path, is
/// mapped both ways (a file keeps its first module path), and is queued.
pub open spec fn apply_decls(st: WalkState, paths: Seq<Seq<char>>, mod_path: Seq<char>, file: Seq<char>, decls: Seq<Seq<char>>) -> WalkState
    decreases decls.len(),
{
    if decls.len() == 0 {
        st
    } else {
        let s1 = apply_decls(st, paths, mod_path, file, decls.drop_last());
        match child_of(paths, file, decls.last()) {
            None => s1,
            Some(nc) => {
                let cp = mod_path + seq![':', ':'] + nc.0;
                WalkState {
                    queue: s1.queue.push((cp, nc.1)),
                    seen: s1.seen,
                    m2f: s1.m2f.insert(cp, nc.1),
                    f2m: if s1.f2m.contains_key(nc.1) { s1.f2m } else { s1.f2m.insert(nc.1, cp) },
                }
            },
        }
    }
}

/// One step: take the last queued file; unless already visited, mark it and
/// record its declared children.
pub open spec fn walk_step(st: WalkState, paths: Seq<Seq<char>>, parsed: Seq<(String, Vec<String>)>) -> WalkState {
    if st.queue.len() == 0 {
        st
    } else {
        let item = st.queue.last();
        let rest = WalkState { queue: st.queue.drop_last(), seen: st.seen, m2f: st.m2f, f2m: st.f2m };
        if st.seen.contains(item.1) {
            rest
        } else {
            let marked = WalkState { queue: rest.queue, seen: rest.seen.push(item.1), m2f: rest.m2f, f2m: rest.f2m };
            match decls_of(parsed, item.1) {
                None => marked,
                Some(decls) => apply_decls(marked, paths, item.0, item.1, decls),
            }
        }
    }
}

/// `n` steps of the walk.
pub open spec fn walk_n(st: WalkState, paths: Seq<Seq<char>>, parsed: Seq<(String, Vec<String>)>, n: nat) -> WalkState
    decreases n,
{
    if n == 0 {
        st
    } else {
        walk_n(walk_step(st, paths, parsed), paths, parsed, (n - 1) as nat)
    }
}

/// The walk's start: the crate's name maps to the root file, which keeps its
/// module path if it had one, and is queued.
pub open spec fn walk_start(name: Seq<char>, root: Seq<char>, m2f: Map<Seq<char>, Seq<char>>, f2m: Map<Seq<char>, Seq<char>>) -> WalkState {
    WalkState {
        queue: seq![(name, root)],
        seen: Seq::empty(),
        m2f: m2f.insert(name, root),
        f2m: if f2m.contains_key(root) { f2m } else { f2m.insert(root, name) },
    }
}

/// The walk run until nothing is queued.
pub open spec fn walk_done(st: WalkState, paths: Seq<Seq<char>>, parsed: Seq<(String, Vec<String>)>) -> WalkState {
    walk_n(st, paths, parsed, choose|n: nat| #[trigger] walk_n(st, paths, parsed, n).queue.len() == 0)
}

proof fn lemma_walk_idle(st: WalkState, paths: Seq<Seq<char>>, parsed: Seq<(String, Vec<String>)>, b: nat)
    requires
        st.queue.len() == 0,
    ensures
        walk_n(st, paths, parsed, b) == st,
    decreases b,
{
    if b > 0 {
        assert(walk_step(st, paths, parsed) == st);
        lemma_walk_idle(st, paths, parsed, (b - 1) as nat);
    }
}

proof fn lemma_walk_add(st: WalkState, paths: Seq<Seq<char>>, parsed: Seq<(String, Vec<String>)>, a: nat, b: nat)
    ensures
        walk_n(st, paths, parsed, a + b) == walk_n(walk_n(st, paths, parsed, a), paths, parsed, b),
    decreases a,
{
    if a > 0 {
        lemma_walk_add(walk_step(st, paths, parsed), paths, parsed, (a - 1) as nat, b);
        assert((a - 1) as nat + b == (a + b - 1) as nat);
    }
}

proof fn lemma_walk_done(st: WalkState, paths: Seq<Seq<char>>, parsed: Seq<(String, Vec<String>)>, n: nat)
    requires
        walk_n(st, paths, parsed, n).queue.len() == 0,
    ensures
        walk_done(st, paths, parsed) == walk_n(st, paths, parsed, n),
{
    let m = choose|m: nat| #[trigger] walk_n(st, paths, parsed, m).queue.len() == 0;
    assert(walk_n(st, paths, parsed, m).queue.len() == 0);
    if m <= n {
        lemma_walk_add(st, paths, parsed, m, (n - m) as nat);
        lemma_walk_idle(walk_n(st, paths, parsed, m), paths, parsed, (n - m) as nat);
        assert(m + (n - m) as nat == n);
    } else {
        lemma_walk_add(st, paths, parsed, n, (m - n) as nat);
        lemma_walk_idle(walk_n(st, paths, parsed, n), paths, parsed, (m - n) as nat);
        assert(n + (m - n) as nat == m);
    }
}

proof fn lemma_walk_n_step(st: WalkState, paths: Seq<Seq<char>>, parsed: Seq<(String, Vec<String>)>, n: nat)
    ensures
        walk_n(st, paths, parsed, n + 1) == walk_step(walk_n(st, paths, parsed, n), paths, parsed),
    decreases n,
{
    assert(walk_n(st, paths, parsed, n + 1) == walk_n(walk_step(st, paths, parsed), paths, parsed, n));
    if n > 0 {
        lemma_walk_n_step(walk_step(st, paths, parsed), paths, parsed, (n - 1) as nat);
        assert(walk_n(st, paths, parsed, n) == walk_n(walk_step(st, paths, parsed), paths, parsed, (n - 1) as nat));
        assert((n - 1) as nat + 1 == n);
    } else {
        assert(walk_n(walk_step(st, paths, parsed), paths, parsed, 0) == walk_step(st, paths, parsed));
    }
}

fn lookup_decls<'a>(parsed: &'a Vec<(String, Vec<String>)>, file: &str) -> (r: Option<&'a Vec<String>>)
    ensures
        match r {
            Some(d) => decls_of(parsed@, file@) == Some(d@.map_values(|x: String| x@)),
            None => decls_of(parsed@, file@) is None,
        },
{
    let mut i = parsed.len();
    assert(parsed@.take(i as int) =~= parsed@);
    while i > 0
        invariant
            i <= parsed@.len(),
            decls_of(parsed@, file@) == decls_of(parsed@.take(i as int), file@),
        decreases i,
    {
        assert(parsed@.take(i as int).drop_last() =~= parsed@.take(i - 1));
        if str_eq(parsed[i - 1].0.as_str(), file) {
            return Some(&parsed[i - 1].1);
        }
        i -= 1;
    }
    None
}

fn child_of_decl(file: &str, decl: &[char], index: &FileIndex) -> (r: Option<(Vec<char>, String)>)
    requires
        index.wf(),
    ensures
        match r {
            Some(nc) => child_of(index.path_texts(), file@, decl@) == Some((nc.0@, nc.1@)),
            None => child_of(index.path_texts(), file@, decl@) is None,
        },
{
    proof {
        lemma_first_index_of(decl@, '\u{1}');
    }
    match find_char(decl, '\u{1}') {
        Some(k) => {
            let n = decl.len();
            let p = vstd::slice::slice_subrange(decl, k + 1, n);
            assert(p@ =~= decl@.skip(k + 1));
            let f = chars_of(file);
            let cand = string_of(join_rel_chars(parent_dir(f.as_slice()).as_slice(), p).as_slice());
            if index.contains(cand.as_str()) {
                let name = vstd::slice::slice_to_vec(vstd::slice::slice_subrange(decl, 0, k));
                assert(name@ =~= decl@.take(k as int));
                Some((name, cand))
            } else {
                None
            }
        },
        None => match find_module_file_scoped(file, decl, None, index) {
            Some(f) => Some((vstd::slice::slice_to_vec(decl), f)),
            None => None,
        },
    }
}

/// The walk state the vectors stand for.
pub open spec fn state_of(queue: Seq<(String, String)>, seen: Seq<String>, m2f: Seq<(String, String)>, f2m: Seq<(String, String)>) -> WalkState {
    WalkState {
        queue: queue.map_values(|e: (String, String)| (e.0@, e.1@)),
        seen: seen.map_values(|s: String| s@),
        m2f: entries_map(m2f),
        f2m: entries_map(f2m),
    }
}

proof fn lemma_child_scanned(paths: Seq<Seq<char>>, file: Seq<char>, decl: Seq<char>)
    ensures
        child_of(paths, file, decl) matches Some(nc) ==> paths.contains(nc.1),
{
}

proof fn lemma_seen_bound(seen: Seq<Seq<char>>, s: Set<Seq<char>>)
    requires
        seen.no_duplicates(),
        forall|i: int| 0 <= i < seen.len() ==> s.contains(#[trigger] seen[i]),
        s.finite(),
    ensures
        seen.len() <= s.len(),
{
    seen.unique_seq_to_set();
    assert(seen.to_set().subset_of(s));
    vstd::set_lib::lemma_len_subset(seen.to_set(), s);
}

fn contains_string(v: &Vec<String>, x: &str) -> (r: bool)
    ensures
        r == v@.map_values(|s: String| s@).contains(x@),
{
    let ghost vs = v@.map_values(|s: String| s@);
    let mut i: usize = 0;
    while i < v.len()
        invariant
            i <= v@.len(),
            vs == v@.map_values(|s: String| s@),
            forall|k: int| 0 <= k < i ==> vs[k] != x@,
        decreases v@.len() - i,
    {
        if str_eq(v[i].as_str(), x) {
            assert(vs[i as int] == x@);
            return true;
        }
        i += 1;
    }
    false
}

/// Walks the module tree of `krate` from `root_file`, following the `mod`
/// declarations recorded in `parsed_mods` (file, declarations; a declaration
/// is `name` or `name\u{1}path`), and records module paths and files in the
/// two maps. A file is visited once, so cycles made by `#[path]` end.
pub fn walk_module_tree(
    krate: &CrateInfo,
    root_file: &str,
    index: &FileIndex,
    parsed_mods: &Vec<(String, Vec<String>)>,
    module_to_file: &mut Vec<(String, String)>,
    file_to_module: &mut Vec<(String, String)>,
)
    requires
        index.wf(),
    ensures
        entries_map(final(module_to_file)@) == walk_done(walk_start(krate.name@, root_file@, entries_map(old(module_to_file)@), entries_map(old(file_to_module)@)), index.path_texts(), parsed_mods@).m2f,
        entries_map(final(file_to_module)@) == walk_done(walk_start(krate.name@, root_file@, entries_map(old(module_to_file)@), entries_map(old(file_to_module)@)), index.path_texts(), parsed_mods@).f2m,
{
    let ghost paths = index.path_texts();
    let ghost start = walk_start(krate.name@, root_file@, entries_map(module_to_file@), entries_map(file_to_module@));
    let ghost scope_set = paths.to_set().insert(root_file@);
    proof {
        paths.lemma_cardinality_of_set();
        vstd::seq_lib::seq_to_set_is_finite(paths);
    }
    let root = crate::text::owned(root_file);
    let mut queue: Vec<(String, String)> = Vec::new();
    queue.push((krate.name.clone(), root.clone()));
    put_entry(module_to_file, krate.name.clone(), root.clone());
    put_entry_absent(file_to_module, root.clone(), krate.name.clone());
    let mut seen: Vec<String> = Vec::new();
    let ghost mut steps: nat = 0;
    assert(state_of(queue@, seen@, module_to_file@, file_to_module@) =~= start) by {
        assert(entries_map(module_to_file@) =~= start.m2f);
        assert(entries_map(file_to_module@) =~= start.f2m);
        assert(queue@.map_values(|e: (String, String)| (e.0@, e.1@)) =~= start.queue);
        assert(seen@.map_values(|s: String| s@) =~= start.seen);
    }
    while queue.len() > 0
        invariant
            index.wf(),
            paths == index.path_texts(),
            scope_set == paths.to_set().insert(root_file@),
            scope_set.finite(),
            scope_set.len() <= paths.len() + 1,
            walk_n(start, paths, parsed_mods@, steps) == state_of(queue@, seen@, module_to_file@, file_to_module@),
            seen@.map_values(|s: String| s@).no_duplicates(),
            forall|i: int| 0 <= i < seen@.len() ==> scope_set.contains(#[trigger] seen@[i]@),
            forall|i: int| 0 <= i < queue@.len() ==> scope_set.contains(#[trigger] queue@[i].1@),
            seen@.len() <= scope_set.len(),
        decreases paths.len() + 1 - seen@.len(), queue@.len(),
    {
        let ghost before = state_of(queue@, seen@, module_to_file@, file_to_module@);
        proof {
            lemma_walk_n_step(start, paths, parsed_mods@, steps);
        }
        let ghost old_queue = queue@;
        let (mod_path, file) = queue.pop().unwrap();
        assert(queue@ == old_queue.drop_last());
        assert(before.queue.last() == (mod_path@, file@));
        if contains_string(&seen, file.as_str()) {
            proof {
                steps = steps + 1;
                assert(state_of(queue@, seen@, module_to_file@, file_to_module@) =~= walk_step(before, paths, parsed_mods@));
            }
            continue;
        }
        let ghost old_seen = seen@.map_values(|s: String| s@);
        seen.push(file.clone());
        proof {
            assert(seen@.map_values(|s: String| s@) =~= old_seen.push(file@));
            assert(seen@.map_values(|s: String| s@).no_duplicates());
            assert forall|i: int| 0 <= i < seen@.len() implies scope_set.contains(#[trigger] seen@[i]@) by {
                if i == seen@.len() - 1 {
                    assert(scope_set.contains(old_queue[old_queue.len() - 1].1@));
                }
            }
            lemma_seen_bound(seen@.map_values(|s: String| s@), scope_set);
        }
        let ghost marked = state_of(queue@, seen@, module_to_file@, file_to_module@);
        assert(marked =~= WalkState { queue: before.queue.drop_last(), seen: before.seen.push(file@), m2f: before.m2f, f2m: before.f2m });
        match lookup_decls(parsed_mods, file.as_str()) {
            None => {
                proof {
                    steps = steps + 1;
                }
            },
            Some(decls) => {
                let ghost ds = decls@.map_values(|x: String| x@);
                let mut j: usize = 0;
                while j < decls.len()
                    invariant
                        index.wf(),
                        paths == index.path_texts(),
                        scope_set == paths.to_set().insert(root_file@),
                        j <= decls@.len(),
                        ds == decls@.map_values(|x: String| x@),
                        state_of(queue@, seen@, module_to_file@, file_to_module@) == apply_decls(marked, paths, mod_path@, file@, ds.take(j as int)),
                        forall|i: int| 0 <= i < queue@.len() ==> scope_set.contains(#[trigger] queue@[i].1@),
                    decreases decls@.len() - j,
                {
                    assert(ds.take(j + 1).drop_last() == ds.take(j as int));
                    assert(ds.take(j + 1).last() == decls@[j as int]@);
                    let d = chars_of(decls[j].as_str());
                    let ghost st1 = state_of(queue@, seen@, module_to_file@, file_to_module@);
                    proof {
                        lemma_child_scanned(paths, file@, d@);
                    }
                    match child_of_decl(file.as_str(), d.as_slice(), index) {
                        None => {},
                        Some((name, child)) => {
                            let mut cpv = chars_of(mod_path.as_str());
                            cpv.push(':');
                            cpv.push(':');
                            let cpc = concat_chars(cpv.as_slice(), name.as_slice());
                            assert(cpc@ =~= mod_path@ + seq![':', ':'] + name@);
                            let cp = string_of(cpc.as_slice());
                            let ghost old_m = module_to_file@;
                            let ghost old_f = file_to_module@;
                            let ghost old_q = queue@;
                            put_entry(module_to_file, cp.clone(), child.clone());
                            put_entry_absent(file_to_module, child.clone(), cp.clone());
                            queue.push((cp, child));
                            proof {
                                assert(entries_map(module_to_file@) =~= st1.m2f.insert(cp@, child@));
                                assert(entries_map(file_to_module@) =~= if st1.f2m.contains_key(child@) { st1.f2m } else { st1.f2m.insert(child@, cp@) });
                                assert(queue@.map_values(|e: (String, String)| (e.0@, e.1@)) =~= st1.queue.push((cp@, child@)));
                                assert forall|i: int| 0 <= i < queue@.len() implies scope_set.contains(#[trigger] queue@[i].1@) by {
                                    if i < old_q.len() {
                                        assert(queue@[i] == old_q[i]);
                                    }
                                }
                            }
                        },
                    }
                    j += 1;
                }
                assert(ds.take(j as int) == ds);
                proof {
                    steps = steps + 1;
                }
            },
        }
    }
    proof {
        assert(walk_n(start, paths, parsed_mods@, steps).queue.len() == 0);
        lemma_walk_done(start, paths, parsed_mods@, steps);
    }
}

/// A crate as text.
pub struct CrateView {
    pub name: Seq<char>,
    pub dir: Seq<char>,
    pub roots: Seq<Seq<char>>,
}

pub open spec fn crate_view(c: CrateInfo) -> CrateView {
    CrateView { name: c.name@, dir: c.dir@, roots: c.roots@.map_values(|r: String| r@) }
}

/// The candidates that are scanned files, in order.
pub open spec fn scanned_only(paths: Seq<Seq<char>>, cands: Seq<Seq<char>>) -> Seq<Seq<char>>
    decreases cands.len(),
{
    if cands.len() == 0 {
        Seq::empty()
    } else {
        let prev = scanned_only(paths, cands.drop_last());
        if paths.contains(cands.last()) {
            prev.push(cands.last())
        } else {
            prev
        }
    }
}

/// A directory named `tests`, `benches` or `examples`.
pub open spec fn is_aux_dir(last: Seq<char>) -> bool {
    last == "tests"@ || last == "benches"@ || last == "examples"@
}

/// The `.rs` files directly in the package's `tests`, `benches` or `examples`.
pub open spec fn aux_roots(paths: Seq<Seq<char>>, all: Seq<Seq<char>>, dir: Seq<char>) -> Seq<Seq<char>>
    decreases all.len(),
{
    if all.len() == 0 {
        Seq::empty()
    } else {
        let prev = aux_roots(paths, all.drop_last(), dir);
        let p = all.last();
        let pd = before_last(p, '/');
        let last = last_piece(pd, '/');
        let expected = if dir.len() == 0 { last } else { dir.push('/') + last };
        if crate::text::is_suffix(".rs"@, p) && is_aux_dir(last) && pd == expected {
            prev.push(p)
        } else {
            prev
        }
    }
}

/// The crate name an auxiliary root gets: package name, `_`, file stem.
pub open spec fn aux_name(crate_name: Seq<char>, file: Seq<char>) -> Seq<char> {
    let f = last_piece(file, '/');
    let stem = if crate::text::is_suffix(".rs"@, f) { f.take(f.len() - ".rs"@.len()) } else { "aux"@ };
    normalised(crate_name + seq!['_'] + stem)
}

/// The crates one manifest makes: one per auxiliary root, then the package
/// itself when it has a library, binary or declared bin among the files.
pub open spec fn manifest_crates(paths: Seq<Seq<char>>, rel: Seq<char>, text: Seq<char>) -> Seq<CrateView> {
    let dir = before_last(rel, '/');
    let m = manifest_of(text);
    match m.0 {
        None => Seq::empty(),
        Some(name) => {
            let roots = scanned_only(
                paths,
                seq![joined_rel(dir, "src/lib.rs"@), joined_rel(dir, "src/main.rs"@)] + m.2.map_values(|b: Seq<char>| joined_rel(dir, b)),
            );
            let extra = aux_roots(paths, paths, dir);
            if roots.len() == 0 && extra.len() == 0 {
                Seq::empty()
            } else {
                let cn = normalised(name);
                let auxes = extra.map_values(|a: Seq<char>| CrateView { name: aux_name(cn, a), dir: dir, roots: seq![a] });
                if roots.len() == 0 {
                    auxes
                } else {
                    auxes.push(CrateView { name: cn, dir: dir, roots: roots })
                }
            }
        },
    }
}

/// The manifest is a `Cargo.toml`.
pub open spec fn is_cargo_manifest(rel: Seq<char>) -> bool {
    last_piece(rel, '/') == "Cargo.toml"@
}

/// The crates of all manifests, in order.
pub open spec fn declared_crates(paths: Seq<Seq<char>>, manifests: Seq<(String, String)>) -> Seq<CrateView>
    decreases manifests.len(),
{
    if manifests.len() == 0 {
        Seq::empty()
    } else {
        let prev = declared_crates(paths, manifests.drop_last());
        let m = manifests.last();
        if is_cargo_manifest(m.0@) {
            prev + manifest_crates(paths, m.0@, m.1@)
        } else {
            prev
        }
    }
}

/// The dependency names of all manifests.
pub open spec fn declared_deps(manifests: Seq<(String, String)>) -> Set<Seq<char>>
    decreases manifests.len(),
{
    if manifests.len() == 0 {
        Set::empty()
    } else {
        let prev = declared_deps(manifests.drop_last());
        let m = manifests.last();
        if is_cargo_manifest(m.0@) {
            prev.union(manifest_of(m.1@).3.to_set())
        } else {
            prev
        }
    }
}

/// Crates in name order (byte order), equal names in the order found.
pub open spec fn crate_before(a: CrateView, b: CrateView) -> bool {
    str_before(a.name, b.name, false)
}

/// The module maps after walking every root of every crate, in order.
pub open spec fn walk_roots(maps: (Map<Seq<char>, Seq<char>>, Map<Seq<char>, Seq<char>>), name: Seq<char>, roots: Seq<Seq<char>>, paths: Seq<Seq<char>>, parsed: Seq<(String, Vec<String>)>) -> (Map<Seq<char>, Seq<char>>, Map<Seq<char>, Seq<char>>)
    decreases roots.len(),
{
    if roots.len() == 0 {
        maps
    } else {
        let m = walk_roots(maps, name, roots.drop_last(), paths, parsed);
        let d = walk_done(walk_start(name, roots.last(), m.0, m.1), paths, parsed);
        (d.m2f, d.f2m)
    }
}

pub open spec fn walk_crates(maps: (Map<Seq<char>, Seq<char>>, Map<Seq<char>, Seq<char>>), crates: Seq<CrateView>, paths: Seq<Seq<char>>, parsed: Seq<(String, Vec<String>)>) -> (Map<Seq<char>, Seq<char>>, Map<Seq<char>, Seq<char>>)
    decreases crates.len(),
{
    if crates.len() == 0 {
        maps
    } else {
        let m = walk_crates(maps, crates.drop_last(), paths, parsed);
        walk_roots(m, crates.last().name, crates.last().roots, paths, parsed)
    }
}

pub(crate) fn copy_strings(v: &Vec<String>) -> (r: Vec<String>)
    ensures
        r@.map_values(|x: String| x@) == v@.map_values(|x: String| x@),
{
    let mut out: Vec<String> = Vec::new();
    let mut i: usize = 0;
    while i < v.len()
        invariant
            i <= v@.len(),
            out@.map_values(|x: String| x@) == v@.map_values(|x: String| x@).take(i as int),
        decreases v@.len() - i,
    {
        let ghost before = out@;
        let x = v[i].clone();
        out.push(x);
        assert(out@.map_values(|x: String| x@) =~= before.map_values(|x: String| x@).push(x@));
        assert(v@.map_values(|x: String| x@).take(i + 1) =~= v@.map_values(|x: String| x@).take(i as int).push(v@[i as int]@));
        i += 1;
    }
    assert(v@.map_values(|x: String| x@).take(i as int) =~= v@.map_values(|x: String| x@));
    out
}

fn copy_crate(c: &CrateInfo) -> (r: CrateInfo)
    ensures
        crate_view(r) == crate_view(*c),
{
    CrateInfo { name: c.name.clone(), dir: c.dir.clone(), roots: copy_strings(&c.roots) }
}

fn scanned_filter(index: &FileIndex, cands: &Vec<Vec<char>>) -> (r: Vec<String>)
    requires
        index.wf(),
    ensures
        r@.map_values(|x: String| x@) == scanned_only(index.path_texts(), cands@.map_values(|x: Vec<char>| x@)),
{
    let ghost cs = cands@.map_values(|x: Vec<char>| x@);
    let mut out: Vec<String> = Vec::new();
    let mut i: usize = 0;
    while i < cands.len()
        invariant
            index.wf(),
            i <= cands@.len(),
            cs == cands@.map_values(|x: Vec<char>| x@),
            out@.map_values(|x: String| x@) == scanned_only(index.path_texts(), cs.take(i as int)),
        decreases cands@.len() - i,
    {
        assert(cs.take(i + 1).drop_last() == cs.take(i as int));
        let c = string_of(cands[i].as_slice());
        if index.contains(c.as_str()) {
            let ghost before = out@;
            out.push(c);
            assert(out@.map_values(|x: String| x@) =~= before.map_values(|x: String| x@).push(cs[i as int]));
        }
        i += 1;
    }
    assert(cs.take(i as int) == cs);
    out
}

fn aux_root_list(index: &FileIndex, dir: &[char]) -> (r: Vec<String>)
    requires
        index.wf(),
    ensures
        r@.map_values(|x: String| x@) == aux_roots(index.path_texts(), index.path_texts(), dir@),
{
    let ghost paths = index.path_texts();
    proof {
        index.lemma_ids_fit();
    }
    let n = index.len();
    let rs = chars_of(".rs");
    let mut out: Vec<String> = Vec::new();
    let mut i: usize = 0;
    while i < n
        invariant
            index.wf(),
            paths == index.path_texts(),
            n == paths.len(),
            n <= u32::MAX,
            i <= n,
            rs@ == ".rs"@,
            out@.map_values(|x: String| x@) == aux_roots(paths, paths.take(i as int), dir@),
        decreases n - i,
    {
        assert(paths.take(i + 1).drop_last() == paths.take(i as int));
        assert(paths.take(i + 1).last() == paths[i as int]);
        let p = index.path(FileId(i as u32)).unwrap();
        let pc = chars_of(p);
        let pd = parent_dir(pc.as_slice());
        let last = crate::resolve::python::last_piece_of(pd.as_slice());
        let expected = if dir.len() == 0 {
            vstd::slice::slice_to_vec(last.as_slice())
        } else {
            let mut d = vstd::slice::slice_to_vec(dir);
            d.push('/');
            concat_chars(d.as_slice(), last.as_slice())
        };
        let ls = string_of(last.as_slice());
        let aux = str_eq(ls.as_str(), "tests") || str_eq(ls.as_str(), "benches") || str_eq(ls.as_str(), "examples");
        if crate::text::ends_with(pc.as_slice(), rs.as_slice()) && aux && chars_eq(pd.as_slice(), expected.as_slice()) {
            let ghost before = out@;
            out.push(string_of(pc.as_slice()));
            assert(out@.map_values(|x: String| x@) =~= before.map_values(|x: String| x@).push(paths[i as int]));
        }
        i += 1;
    }
    assert(paths.take(i as int) == paths);
    out
}

fn aux_crate_name(crate_name: &[char], file: &str) -> (r: String)
    ensures
        r@ == aux_name(crate_name@, file@),
{
    let f = crate::resolve::python::last_piece_of(chars_of(file).as_slice());
    let rs = chars_of(".rs");
    let stem = if crate::text::ends_with(f.as_slice(), rs.as_slice()) {
        vstd::slice::slice_to_vec(vstd::slice::slice_subrange(f.as_slice(), 0, f.len() - rs.len()))
    } else {
        chars_of("aux")
    };
    let mut a = vstd::slice::slice_to_vec(crate_name);
    a.push('_');
    let full = concat_chars(a.as_slice(), stem.as_slice());
    assert(full@ =~= crate_name@ + seq!['_'] + stem@);
    string_of(replace_char(full.as_slice(), '-', '_').as_slice())
}

fn crates_of_manifest(index: &FileIndex, rel: &str, text: &str) -> (r: (Vec<CrateInfo>, Vec<String>))
    requires
        index.wf(),
    ensures
        r.0@.map_values(|c: CrateInfo| crate_view(c)) == manifest_crates(index.path_texts(), rel@, text@),
        r.1@.map_values(|x: String| x@) == manifest_of(text@).3,
{
    let relc = chars_of(rel);
    let dir = parent_dir(relc.as_slice());
    let (name, _members, bins, deps) = read_manifest(text);
    let mut out: Vec<CrateInfo> = Vec::new();
    let name = match name {
        None => {
            assert(out@.map_values(|c: CrateInfo| crate_view(c)) =~= Seq::<CrateView>::empty());
            return (out, deps);
        },
        Some(n) => n,
    };
    let mut cands: Vec<Vec<char>> = Vec::new();
    cands.push(join_rel_chars(dir.as_slice(), chars_of("src/lib.rs").as_slice()));
    cands.push(join_rel_chars(dir.as_slice(), chars_of("src/main.rs").as_slice()));
    let ghost base = cands@.map_values(|x: Vec<char>| x@);
    let ghost bv = bins@.map_values(|x: String| x@);
    let mut k: usize = 0;
    while k < bins.len()
        invariant
            k <= bins@.len(),
            bv == bins@.map_values(|x: String| x@),
            cands@.map_values(|x: Vec<char>| x@) == base + bv.take(k as int).map_values(|b: Seq<char>| joined_rel(dir@, b)),
        decreases bins@.len() - k,
    {
        let ghost before = cands@.map_values(|x: Vec<char>| x@);
        let b = chars_of(bins[k].as_str());
        cands.push(join_rel_chars(dir.as_slice(), b.as_slice()));
        assert(cands@.map_values(|x: Vec<char>| x@) =~= before.push(joined_rel(dir@, bv[k as int])));
        assert(bv.take(k + 1).map_values(|b: Seq<char>| joined_rel(dir@, b)) =~= bv.take(k as int).map_values(|b: Seq<char>| joined_rel(dir@, b)).push(joined_rel(dir@, bv[k as int])));
        k += 1;
    }
    assert(bv.take(k as int) == bv);
    assert(base =~= seq![joined_rel(dir@, "src/lib.rs"@), joined_rel(dir@, "src/main.rs"@)]);
    let roots = scanned_filter(index, &cands);
    let extra = aux_root_list(index, dir.as_slice());
    if roots.len() == 0 && extra.len() == 0 {
        assert(out@.map_values(|c: CrateInfo| crate_view(c)) =~= Seq::<CrateView>::empty());
        return (out, deps);
    }
    let cn = replace_char(chars_of(name.as_str()).as_slice(), '-', '_');
    let ghost ev = extra@.map_values(|x: String| x@);
    let mut j: usize = 0;
    while j < extra.len()
        invariant
            j <= extra@.len(),
            ev == extra@.map_values(|x: String| x@),
            cn@ == normalised(name@),
            out@.map_values(|c: CrateInfo| crate_view(c)) == ev.take(j as int).map_values(|a: Seq<char>| CrateView { name: aux_name(cn@, a), dir: dir@, roots: seq![a] }),
        decreases extra@.len() - j,
    {
        let ghost before = out@.map_values(|c: CrateInfo| crate_view(c));
        let a = extra[j].clone();
        let nm = aux_crate_name(cn.as_slice(), a.as_str());
        let mut rv: Vec<String> = Vec::new();
        rv.push(a);
        let c = CrateInfo { name: nm, dir: string_of(dir.as_slice()), roots: rv };
        assert(crate_view(c) =~= CrateView { name: aux_name(cn@, ev[j as int]), dir: dir@, roots: seq![ev[j as int]] }) by {
            assert(c.roots@.map_values(|r: String| r@) =~= seq![ev[j as int]]);
        }
        out.push(c);
        assert(out@.map_values(|c: CrateInfo| crate_view(c)) =~= before.push(crate_view(c)));
        assert(ev.take(j + 1).map_values(|a: Seq<char>| CrateView { name: aux_name(cn@, a), dir: dir@, roots: seq![a] }) =~= ev.take(j as int).map_values(|a: Seq<char>| CrateView { name: aux_name(cn@, a), dir: dir@, roots: seq![a] }).push(CrateView { name: aux_name(cn@, ev[j as int]), dir: dir@, roots: seq![ev[j as int]] }));
        j += 1;
    }
    assert(ev.take(j as int) == ev);
    if roots.len() == 0 {
        return (out, deps);
    }
    let ghost before = out@.map_values(|c: CrateInfo| crate_view(c));
    let c = CrateInfo { name: string_of(cn.as_slice()), dir: string_of(dir.as_slice()), roots };
    out.push(c);
    assert(out@.map_values(|c: CrateInfo| crate_view(c)) =~= before.push(crate_view(c)));
    (out, deps)
}

/// Builds the project from the manifests read (path, text), the scanned
/// files, and the `mod` declarations recorded per file: the crates in name
/// order, their module trees walked, and every dependency name once, sorted.
pub fn build_project(
    index: &FileIndex,
    manifests: &[(String, String)],
    parsed_mods: &Vec<(String, Vec<String>)>,
) -> (p: RustProject)
    requires
        index.wf(),
    ensures
        p.crates@.map_values(|c: CrateInfo| crate_view(c)) == stable_sorted(
            declared_crates(index.path_texts(), manifests@),
            |a: CrateView, b: CrateView| crate_before(a, b),
        ),
        strictly_sorted(p.external_crates@.map_values(|x: String| x@), false),
        p.external_crates@.map_values(|x: String| x@).to_set() == declared_deps(manifests@),
        (entries_map(p.module_to_file@), entries_map(p.file_to_module@)) == walk_crates(
            (Map::empty(), Map::empty()),
            p.crates@.map_values(|c: CrateInfo| crate_view(c)),
            index.path_texts(),
            parsed_mods@,
        ),
{
    let ghost paths = index.path_texts();
    let ghost before_fn = |a: CrateView, b: CrateView| crate_before(a, b);
    let ghost mut found: Seq<CrateView> = Seq::empty();
    let mut crates: Vec<CrateInfo> = Vec::new();
    let mut external: Vec<String> = Vec::new();
    let mut i: usize = 0;
    assert(external@.map_values(|x: String| x@) =~= Seq::<Seq<char>>::empty());
    while i < manifests.len()
        invariant
            index.wf(),
            paths == index.path_texts(),
            i <= manifests@.len(),
            before_fn == |a: CrateView, b: CrateView| crate_before(a, b),
            found == declared_crates(paths, manifests@.take(i as int)),
            crates@.map_values(|c: CrateInfo| crate_view(c)) == stable_sorted(found, before_fn),
            strictly_sorted(external@.map_values(|x: String| x@), false),
            external@.map_values(|x: String| x@).to_set() == declared_deps(manifests@.take(i as int)),
        decreases manifests@.len() - i,
    {
        assert(manifests@.take(i + 1).drop_last() == manifests@.take(i as int));
        assert(manifests@.take(i + 1).last() == manifests@[i as int]);
        let relc = chars_of(manifests[i].0.as_str());
        let name = crate::resolve::python::last_piece_of(relc.as_slice());
        if str_eq(string_of(name.as_slice()).as_str(), "Cargo.toml") {
            let (found_crates, deps) = crates_of_manifest(index, manifests[i].0.as_str(), manifests[i].1.as_str());
            let ghost dv = deps@.map_values(|x: String| x@);
            let ghost ext0 = external@.map_values(|x: String| x@).to_set();
            let mut d: usize = 0;
            while d < deps.len()
                invariant
                    d <= deps@.len(),
                    dv == deps@.map_values(|x: String| x@),
                    strictly_sorted(external@.map_values(|x: String| x@), false),
                    external@.map_values(|x: String| x@).to_set() == ext0.union(dv.take(d as int).to_set()),
                decreases deps@.len() - d,
            {
                let ghost e0 = external@.map_values(|x: String| x@).to_set();
                insert_sorted(&mut external, deps[d].clone(), false);
                proof {
                    crate::text::lemma_push_to_set(dv.take(d as int), dv[d as int]);
                    assert(dv.take(d + 1) =~= dv.take(d as int).push(dv[d as int]));
                }
                assert(external@.map_values(|x: String| x@).to_set() =~= ext0.union(dv.take(d + 1).to_set()));
                d += 1;
            }
            assert(dv.take(d as int) == dv);
            let ghost fv = found_crates@.map_values(|c: CrateInfo| crate_view(c));
            let mut k: usize = 0;
            let ghost f0 = found;
            while k < found_crates.len()
                invariant
                    k <= found_crates@.len(),
                    fv == found_crates@.map_values(|c: CrateInfo| crate_view(c)),
                    before_fn == |a: CrateView, b: CrateView| crate_before(a, b),
                    found == f0 + fv.take(k as int),
                    crates@.map_values(|c: CrateInfo| crate_view(c)) == stable_sorted(found, before_fn),
                decreases found_crates@.len() - k,
            {
                let c = copy_crate(&found_crates[k]);
                let ghost x = fv[k as int];
                let ghost sorted = crates@.map_values(|c: CrateInfo| crate_view(c));
                let mut count: usize = 0;
                let mut q: usize = 0;
                while q < crates.len()
                    invariant
                        q <= crates@.len(),
                        sorted == crates@.map_values(|c: CrateInfo| crate_view(c)),
                        before_fn == |a: CrateView, b: CrateView| crate_before(a, b),
                        count == count_not_before(sorted.take(q as int), x, before_fn),
                        count <= q,
                        x.name == c.name@,
                    decreases crates@.len() - q,
                {
                    assert(sorted.take(q + 1).drop_last() == sorted.take(q as int));
                    if !is_before(c.name.as_str(), crates[q].name.as_str(), false) {
                        count += 1;
                    }
                    q += 1;
                }
                assert(sorted.take(q as int) == sorted);
                crates.insert(count, c);
                proof {
                    assert(crates@.map_values(|c: CrateInfo| crate_view(c)) =~= sorted.insert(count as int, x));
                    assert((f0 + fv.take(k + 1)).drop_last() =~= f0 + fv.take(k as int));
                    assert((f0 + fv.take(k + 1)).last() == x);
                    found = f0 + fv.take(k + 1);
                }
                k += 1;
            }
            assert(fv.take(k as int) == fv);
        }
        assert(found == declared_crates(paths, manifests@.take(i + 1)));
        i += 1;
    }
    assert(manifests@.take(i as int) == manifests@);
    let mut m2f: Vec<(String, String)> = Vec::new();
    let mut f2m: Vec<(String, String)> = Vec::new();
    assert(entries_map(m2f@) =~= Map::<Seq<char>, Seq<char>>::empty());
    let ghost cv = crates@.map_values(|c: CrateInfo| crate_view(c));
    let mut c: usize = 0;
    while c < crates.len()
        invariant
            index.wf(),
            paths == index.path_texts(),
            c <= crates@.len(),
            cv == crates@.map_values(|c: CrateInfo| crate_view(c)),
            (entries_map(m2f@), entries_map(f2m@)) == walk_crates((Map::empty(), Map::empty()), cv.take(c as int), paths, parsed_mods@),
        decreases crates@.len() - c,
    {
        assert(cv.take(c + 1).drop_last() == cv.take(c as int));
        assert(cv.take(c + 1).last() == cv[c as int]);
        let krate = &crates[c];
        let ghost start_maps = (entries_map(m2f@), entries_map(f2m@));
        let ghost rv = krate.roots@.map_values(|r: String| r@);
        let mut r: usize = 0;
        while r < krate.roots.len()
            invariant
                index.wf(),
                paths == index.path_texts(),
                r <= krate.roots@.len(),
                rv == krate.roots@.map_values(|r: String| r@),
                (entries_map(m2f@), entries_map(f2m@)) == walk_roots(start_maps, krate.name@, rv.take(r as int), paths, parsed_mods@),
            decreases krate.roots@.len() - r,
        {
            assert(rv.take(r + 1).drop_last() == rv.take(r as int));
            assert(rv.take(r + 1).last() == krate.roots@[r as int]@);
            walk_module_tree(krate, krate.roots[r].as_str(), index, parsed_mods, &mut m2f, &mut f2m);
            r += 1;
        }
        assert(rv.take(r as int) == rv);
        c += 1;
    }
    assert(cv.take(c as int) == cv);
    RustProject { crates, module_to_file: m2f, file_to_module: f2m, external_crates: external }
}

} // verus!
