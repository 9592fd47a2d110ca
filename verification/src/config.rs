//! The repository's `zatlas.toml`: what to scan, which files are entry
//! points, the declared layers and the dependency directions allowed
//! between them, and how language servers are used.
use vstd::prelude::*;
use crate::lsp::{LspMode, LspSettings};
use crate::paths::{joined_path, push_segment, rel_to_path, rel_joined};
use crate::text::{chars_of, concat, owned, split, string_of, trim, trim_chars};

verus! {

/// The settings a repository can write down.
#[derive(Debug, Clone, PartialEq)]
pub struct ZatlasConfig {
    pub includes: Vec<String>,
    pub exclude: Vec<String>,
    pub entrypoints: Vec<String>,
    pub layers: Vec<Layer>,
    pub rules: Vec<String>,
    pub lsp: LspSettings,
}

/// A named layer: the globs of its files, and rules written inside its block.
#[derive(Debug, Clone, PartialEq)]
pub struct Layer {
    pub name: String,
    pub paths: Vec<String>,
    pub rules: Vec<String>,
}

/// An allowed dependency direction between two declared layers.
#[derive(Debug, Clone, PartialEq, Eq)]
pub struct LayerRule {
    pub from: String,
    pub to: String,
}

impl Default for ZatlasConfig {
    fn default() -> (r: ZatlasConfig)
        ensures
            r.includes@.len() == 0,
            r.exclude@.len() == 0,
            r.entrypoints@.len() == 0,
            r.layers@.len() == 0,
            r.rules@.len() == 0,
            is_default_lsp(r.lsp),
    {
        ZatlasConfig {
            includes: Vec::new(),
            exclude: Vec::new(),
            entrypoints: Vec::new(),
            layers: Vec::new(),
            rules: Vec::new(),
            lsp: LspSettings::default(),
        }
    }
}


/// A list of strings as plain values.
pub open spec fn strs(v: Seq<String>) -> Seq<Seq<char>> {
    v.map_values(|s: String| s@)
}

/// The rules written inside the layer blocks, block by block.
pub open spec fn layer_rule_strings(ls: Seq<Layer>) -> Seq<Seq<char>>
    decreases ls.len(),
{
    if ls.len() == 0 {
        Seq::empty()
    } else {
        layer_rule_strings(ls.drop_last()) + strs(ls.last().rules@)
    }
}

/// Every rule of a configuration: those at the document root, then those
/// written inside layer blocks.
pub open spec fn rule_strings(c: ZatlasConfig) -> Seq<Seq<char>> {
    strs(c.rules@) + layer_rule_strings(c.layers@)
}

/// Where the first `->` of `s` at or after `i` starts.
pub open spec fn arrow_from(s: Seq<char>, i: int) -> Option<int>
    decreases s.len() - i,
{
    if i < 0 || i + 1 >= s.len() {
        None
    } else if s[i] == '-' && s[i + 1] == '>' {
        Some(i)
    } else {
        arrow_from(s, i + 1)
    }
}

/// A rule split at its first `->`, each side trimmed.
pub open spec fn split_rule(raw: Seq<char>) -> Option<(Seq<char>, Seq<char>)> {
    match arrow_from(raw, 0) {
        Some(i) => Some((trim(raw.take(i)), trim(raw.skip(i + 2)))),
        None => None,
    }
}

/// The names of the declared layers.
pub open spec fn declared_names(ls: Seq<Layer>) -> Seq<Seq<char>> {
    ls.map_values(|l: Layer| l.name@)
}

/// The direction a rule allows: both sides present and both declared.
pub open spec fn rule_of(raw: Seq<char>, declared: Seq<Seq<char>>) -> Option<(Seq<char>, Seq<char>)> {
    match split_rule(raw) {
        Some(p) => if p.0.len() > 0 && p.1.len() > 0 && declared.contains(p.0) && declared.contains(p.1) {
            Some(p)
        } else {
            None
        },
        None => None,
    }
}

/// The directions the rules allow, in order.
pub open spec fn rules_of(raws: Seq<Seq<char>>, declared: Seq<Seq<char>>) -> Seq<(Seq<char>, Seq<char>)>
    decreases raws.len(),
{
    if raws.len() == 0 {
        Seq::empty()
    } else {
        let p = rules_of(raws.drop_last(), declared);
        match rule_of(raws.last(), declared) {
            Some(r) => p.push(r),
            None => p,
        }
    }
}

/// A direction written the canonical way, `from -> to`.
pub open spec fn rule_text(r: (Seq<char>, Seq<char>)) -> Seq<char> {
    r.0 + seq![' ', '-', '>', ' '] + r.1
}

/// A rule written the canonical way where it has an arrow, as written
/// otherwise.
pub open spec fn normalised(raw: Seq<char>) -> Seq<char> {
    match split_rule(raw) {
        Some(p) => rule_text(p),
        None => raw,
    }
}

/// The rules whose canonical form is none of `valid`, in order.
pub open spec fn invalid_of(raws: Seq<Seq<char>>, valid: Seq<Seq<char>>) -> Seq<Seq<char>>
    decreases raws.len(),
{
    if raws.len() == 0 {
        Seq::empty()
    } else {
        let p = invalid_of(raws.drop_last(), valid);
        if valid.contains(normalised(raws.last())) { p } else { p.push(raws.last()) }
    }
}

/// Language-server settings that equal the defaults.
pub open spec fn is_default_lsp(s: LspSettings) -> bool {
    &&& s.mode == LspMode::Off
    &&& s.timeout_ms == 5_000
    &&& s.startup_ms == 30_000
    &&& s.budget_ms == 120_000
    &&& s.servers@.len() == 0
}

fn push_all(out: &mut Vec<String>, v: &Vec<String>)
    ensures
        strs(final(out)@) == strs(old(out)@) + strs(v@),
{
    let ghost start = strs(out@);
    let mut i: usize = 0;
    while i < v.len()
        invariant
            i <= v@.len(),
            strs(out@) == start + strs(v@).take(i as int),
        decreases v@.len() - i,
    {
        let ghost before = strs(out@);
        out.push(owned(v[i].as_str()));
        assert(strs(out@) =~= before.push(v@[i as int]@));
        assert(strs(v@).take(i + 1) =~= strs(v@).take(i as int).push(v@[i as int]@));
        i += 1;
    }
    assert(strs(v@).take(i as int) =~= strs(v@));
}

fn find_arrow(s: &[char]) -> (r: Option<usize>)
    ensures
        match r {
            Some(i) => arrow_from(s@, 0) == Some(i as int) && i + 1 < s@.len(),
            None => arrow_from(s@, 0) is None,
        },
{
    let mut i: usize = 0;
    while i < s.len() && s.len() - i > 1
        invariant
            i <= s@.len(),
            arrow_from(s@, 0) == arrow_from(s@, i as int),
        decreases s@.len() - i,
    {
        if s[i] == '-' && s[i + 1] == '>' {
            return Some(i);
        }
        i += 1;
    }
    None
}

fn split_rule_of(raw: &str) -> (r: Option<(Vec<char>, Vec<char>)>)
    ensures
        match r {
            Some(p) => split_rule(raw@) == Some((p.0@, p.1@)),
            None => split_rule(raw@) is None,
        },
{
    let cs = chars_of(raw);
    match find_arrow(cs.as_slice()) {
        Some(i) => {
            let n = cs.len();
            assert(i + 1 < n);
            let f = trim_chars(vstd::slice::slice_subrange(cs.as_slice(), 0, i));
            let t = trim_chars(vstd::slice::slice_subrange(cs.as_slice(), i + 2, n));
            assert(cs@.subrange(0, i as int) =~= raw@.take(i as int));
            assert(cs@.subrange(i + 2, cs@.len() as int) =~= raw@.skip(i + 2));
            Some((f, t))
        },
        None => None,
    }
}

fn names_contain(layers: &Vec<Layer>, name: &[char]) -> (r: bool)
    ensures
        r == declared_names(layers@).contains(name@),
{
    let mut i: usize = 0;
    while i < layers.len()
        invariant
            i <= layers@.len(),
            forall|k: int| 0 <= k < i ==> layers@[k].name@ != name@,
        decreases layers@.len() - i,
    {
        let c = chars_of(layers[i].name.as_str());
        if crate::text::chars_eq(c.as_slice(), name) {
            assert(declared_names(layers@)[i as int] == name@);
            return true;
        }
        i += 1;
    }
    assert(!declared_names(layers@).contains(name@)) by {
        if declared_names(layers@).contains(name@) {
            let k = choose|k: int| 0 <= k < declared_names(layers@).len() && declared_names(layers@)[k] == name@;
            assert(layers@[k].name@ == name@);
        }
    }
    false
}

impl ZatlasConfig {
    /// The name of the file, at the repository root.
    pub const FILE_NAME: &'static str = "zatlas.toml";

    /// Every rule string: the document root's first, then each layer block's.
    pub fn all_rule_strings(&self) -> (r: Vec<String>)
        ensures
            strs(r@) == rule_strings(*self),
    {
        let mut out: Vec<String> = Vec::new();
        assert(strs(out@) =~= Seq::<Seq<char>>::empty());
        push_all(&mut out, &self.rules);
        let mut i: usize = 0;
        assert(self.layers@.take(0) =~= Seq::<Layer>::empty());
        while i < self.layers.len()
            invariant
                i <= self.layers@.len(),
                strs(out@) == strs(self.rules@) + layer_rule_strings(self.layers@.take(i as int)),
            decreases self.layers@.len() - i,
        {
            assert(self.layers@.take(i + 1).drop_last() =~= self.layers@.take(i as int));
            push_all(&mut out, &self.layers[i].rules);
            assert(strs(out@) =~= strs(self.rules@) + layer_rule_strings(self.layers@.take(i + 1)));
            i += 1;
        }
        assert(self.layers@.take(i as int) =~= self.layers@);
        out
    }

    /// The directions the rules allow: each rule split at its first `->`,
    /// kept where both sides name declared layers.
    pub fn layer_rules(&self) -> (r: Vec<LayerRule>)
        ensures
            r@.map_values(|x: LayerRule| (x.from@, x.to@)) == rules_of(rule_strings(*self), declared_names(self.layers@)),
    {
        let raws = self.all_rule_strings();
        let ghost rv = strs(raws@);
        let ghost declared = declared_names(self.layers@);
        let mut out: Vec<LayerRule> = Vec::new();
        let mut i: usize = 0;
        assert(rv.take(0) =~= Seq::<Seq<char>>::empty());
        assert(out@.map_values(|x: LayerRule| (x.from@, x.to@)) =~= Seq::<(Seq<char>, Seq<char>)>::empty());
        while i < raws.len()
            invariant
                i <= rv.len(),
                rv == strs(raws@),
                declared == declared_names(self.layers@),
                out@.map_values(|x: LayerRule| (x.from@, x.to@)) == rules_of(rv.take(i as int), declared),
            decreases rv.len() - i,
        {
            assert(rv.take(i + 1).drop_last() =~= rv.take(i as int));
            assert(rv.take(i + 1).last() == raws@[i as int]@);
            if let Some((f, t)) = split_rule_of(raws[i].as_str()) {
                if f.len() > 0 && t.len() > 0 && names_contain(&self.layers, f.as_slice())
                    && names_contain(&self.layers, t.as_slice()) {
                    let ghost before = out@.map_values(|x: LayerRule| (x.from@, x.to@));
                    let rule = LayerRule { from: string_of(f.as_slice()), to: string_of(t.as_slice()) };
                    out.push(rule);
                    assert(out@.map_values(|x: LayerRule| (x.from@, x.to@)) =~= before.push((f@, t@)));
                }
            }
            i += 1;
        }
        assert(rv.take(i as int) =~= rv);
        out
    }

    /// The rules that allow nothing: those whose canonical `from -> to`
    /// form is not among the allowed directions, as written.
    pub fn invalid_rules(&self) -> (r: Vec<String>)
        ensures
            strs(r@) == invalid_of(
                rule_strings(*self),
                rules_of(rule_strings(*self), declared_names(self.layers@)).map_values(|p: (Seq<char>, Seq<char>)| rule_text(p)),
            ),
    {
        let allowed = self.layer_rules();
        let ghost av = allowed@.map_values(|x: LayerRule| (x.from@, x.to@));
        let mut valid: Vec<Vec<char>> = Vec::new();
        let mut k: usize = 0;
        let arrow = chars_of(" -> ");
        proof { reveal_strlit(" -> "); }
        assert(arrow@ =~= seq![' ', '-', '>', ' ']);
        while k < allowed.len()
            invariant
                k <= av.len(),
                av == allowed@.map_values(|x: LayerRule| (x.from@, x.to@)),
                arrow@ == seq![' ', '-', '>', ' '],
                valid@.len() == k,
                forall|q: int| 0 <= q < k ==> (#[trigger] valid@[q])@ == rule_text(av[q]),
            decreases av.len() - k,
        {
            let f = chars_of(allowed[k].from.as_str());
            let t = chars_of(allowed[k].to.as_str());
            let head = crate::text::concat_chars(f.as_slice(), arrow.as_slice());
            let whole = crate::text::concat_chars(head.as_slice(), t.as_slice());
            valid.push(whole);
            k += 1;
        }
        let ghost vv = av.map_values(|p: (Seq<char>, Seq<char>)| rule_text(p));
        let raws = self.all_rule_strings();
        let ghost rv = strs(raws@);
        let mut out: Vec<String> = Vec::new();
        let mut i: usize = 0;
        assert(rv.take(0) =~= Seq::<Seq<char>>::empty());
        assert(strs(out@) =~= Seq::<Seq<char>>::empty());
        while i < raws.len()
            invariant
                i <= rv.len(),
                rv == strs(raws@),
                arrow@ == seq![' ', '-', '>', ' '],
                vv == av.map_values(|p: (Seq<char>, Seq<char>)| rule_text(p)),
                valid@.len() == vv.len(),
                forall|q: int| 0 <= q < vv.len() ==> (#[trigger] valid@[q])@ == vv[q],
                strs(out@) == invalid_of(rv.take(i as int), vv),
            decreases rv.len() - i,
        {
            assert(rv.take(i + 1).drop_last() =~= rv.take(i as int));
            assert(rv.take(i + 1).last() == raws@[i as int]@);
            let norm: Vec<char> = match split_rule_of(raws[i].as_str()) {
                Some((f, t)) => {
                    let head = crate::text::concat_chars(f.as_slice(), arrow.as_slice());
                    crate::text::concat_chars(head.as_slice(), t.as_slice())
                },
                None => chars_of(raws[i].as_str()),
            };
            assert(norm@ == normalised(raws@[i as int]@));
            let mut found = false;
            let mut q: usize = 0;
            while q < valid.len()
                invariant
                    q <= valid@.len(),
                    valid@.len() == vv.len(),
                    forall|z: int| 0 <= z < vv.len() ==> (#[trigger] valid@[z])@ == vv[z],
                    found <==> exists|z: int| 0 <= z < q && vv[z] == norm@,
                decreases valid@.len() - q,
            {
                if crate::text::chars_eq(valid[q].as_slice(), norm.as_slice()) {
                    found = true;
                }
                q += 1;
            }
            assert(found <==> vv.contains(norm@));
            if !found {
                let ghost before = strs(out@);
                out.push(owned(raws[i].as_str()));
                assert(strs(out@) =~= before.push(raws@[i as int]@));
            }
            i += 1;
        }
        assert(rv.take(i as int) =~= rv);
        out
    }
}


/// How one character is written inside a TOML basic string.
pub open spec fn toml_escape(c: char) -> Seq<char> {
    if c == '"' {
        seq!['\\', '"']
    } else if c == '\\' {
        seq!['\\', '\\']
    } else if c == '\n' {
        seq!['\\', 'n']
    } else if c == '\r' {
        seq!['\\', 'r']
    } else if c == '\t' {
        seq!['\\', 't']
    } else {
        seq![c]
    }
}

/// The characters of `s`, each escaped.
pub open spec fn toml_escaped(s: Seq<char>) -> Seq<char>
    decreases s.len(),
{
    if s.len() == 0 {
        Seq::empty()
    } else {
        toml_escaped(s.drop_last()) + toml_escape(s.last())
    }
}

/// `s` as a TOML basic string.
pub open spec fn toml_quoted(s: Seq<char>) -> Seq<char> {
    seq!['"'] + toml_escaped(s) + seq!['"']
}

/// The strings as TOML strings separated by `, `.
pub open spec fn toml_items(vs: Seq<Seq<char>>) -> Seq<char>
    decreases vs.len(),
{
    if vs.len() == 0 {
        Seq::empty()
    } else if vs.len() == 1 {
        toml_quoted(vs[0])
    } else {
        toml_items(vs.drop_last()) + seq![',', ' '] + toml_quoted(vs.last())
    }
}

/// The strings as a TOML array.
pub open spec fn toml_list(vs: Seq<Seq<char>>) -> Seq<char> {
    seq!['['] + toml_items(vs) + seq![']']
}

/// `s` as a TOML basic string: quoted, with quotes, backslashes, newlines,
/// carriage returns and tabs escaped.
pub fn toml_string(value: &str) -> (r: String)
    ensures
        r@ == toml_quoted(value@),
{
    let cs = chars_of(value);
    let mut out: Vec<char> = Vec::new();
    out.push('"');
    let mut i: usize = 0;
    while i < cs.len()
        invariant
            i <= cs@.len(),
            cs@ == value@,
            out@ == seq!['"'] + toml_escaped(cs@.take(i as int)),
        decreases cs@.len() - i,
    {
        assert(cs@.take(i + 1).drop_last() =~= cs@.take(i as int));
        let c = cs[i];
        let ghost before = out@;
        if c == '"' {
            out.push('\\');
            out.push('"');
        } else if c == '\\' {
            out.push('\\');
            out.push('\\');
        } else if c == '\n' {
            out.push('\\');
            out.push('n');
        } else if c == '\r' {
            out.push('\\');
            out.push('r');
        } else if c == '\t' {
            out.push('\\');
            out.push('t');
        } else {
            out.push(c);
        }
        assert(out@ =~= before + toml_escape(c));
        i += 1;
    }
    assert(cs@.take(i as int) =~= cs@);
    out.push('"');
    string_of(out.as_slice())
}

/// The strings as a TOML array of strings.
pub fn toml_array(values: &Vec<String>) -> (r: String)
    ensures
        r@ == toml_list(strs(values@)),
{
    let ghost vs = strs(values@);
    let mut out: Vec<char> = Vec::new();
    out.push('[');
    let mut i: usize = 0;
    assert(vs.take(0) =~= Seq::<Seq<char>>::empty());
    while i < values.len()
        invariant
            i <= vs.len(),
            vs == strs(values@),
            out@ == seq!['['] + toml_items(vs.take(i as int)),
        decreases vs.len() - i,
    {
        assert(vs.take(i + 1).drop_last() =~= vs.take(i as int));
        assert(vs.take(i + 1).last() == values@[i as int]@);
        let ghost before = out@;
        if i > 0 {
            out.push(',');
            out.push(' ');
        }
        let q = toml_string(values[i].as_str());
        let qc = chars_of(q.as_str());
        let mut k: usize = 0;
        let ghost mid = out@;
        while k < qc.len()
            invariant
                k <= qc@.len(),
                out@ == mid + qc@.take(k as int),
            decreases qc@.len() - k,
        {
            out.push(qc[k]);
            assert(qc@.take(k + 1) =~= qc@.take(k as int).push(qc@[k as int]));
            k += 1;
        }
        assert(qc@.take(k as int) =~= qc@);
        if i == 0 {
            assert(vs.take(1) =~= seq![vs[0]]);
        }
        assert(out@ =~= seq!['['] + toml_items(vs.take(i + 1)));
        i += 1;
    }
    assert(vs.take(i as int) =~= vs);
    out.push(']');
    string_of(out.as_slice())
}

/// The name a mode is written with.
pub open spec fn mode_word(m: LspMode) -> Seq<char> {
    match m {
        LspMode::Off => "off"@,
        LspMode::Repair => "repair"@,
        LspMode::Verify => "verify"@,
    }
}

/// A list written under a comment as `key = [..]`, or nothing when empty.
pub open spec fn list_section(comment: Seq<char>, key: Seq<char>, vs: Seq<Seq<char>>) -> Seq<char> {
    if vs.len() == 0 { Seq::empty() } else { comment + key + toml_list(vs) + seq!['\n'] }
}

/// The `[[layers]]` blocks, each with its name and globs.
pub open spec fn layer_blocks(ls: Seq<Layer>) -> Seq<char>
    decreases ls.len(),
{
    if ls.len() == 0 {
        Seq::empty()
    } else {
        let l = ls.last();
        layer_blocks(ls.drop_last()) + "[[layers]]\n"@ + "name = "@ + toml_quoted(l.name@) + seq!['\n']
            + "paths = "@ + toml_list(strs(l.paths@)) + seq!['\n', '\n']
    }
}

/// The `[lsp]` table, written only when it differs from the defaults.
pub open spec fn lsp_section(s: LspSettings) -> Seq<char> {
    if is_default_lsp(s) {
        Seq::empty()
    } else {
        "[lsp]\n"@ + "mode = "@ + toml_quoted(mode_word(s.mode)) + seq!['\n']
            + if s.servers@.len() == 0 { Seq::empty() } else { "servers = "@ + toml_list(strs(s.servers@)) + seq!['\n'] }
    }
}

/// The header of the document.
pub open spec fn toml_header() -> Seq<char> {
    "# Written by ZAtlas. Safe to edit by hand.\n"@ + "# https://github.com/TheHolyOneZ/ZAtlas\n\n"@
}

/// The scan lists that are set, and a blank line after them if any is.
pub open spec fn scan_part(c: ZatlasConfig) -> Seq<char> {
    list_section("# Globs limiting the scan. Empty means everything the walk finds.\n"@, seq!['i', 'n', 'c', 'l', 'u', 'd', 'e', ' ', '=', ' '], strs(c.includes@))
        + list_section("# Removed from the scan, applied after `include`.\n"@, "exclude = "@, strs(c.exclude@))
        + list_section("# Files treated as roots. Without these, every `main` looks like an orphan.\n"@, "entrypoints = "@, strs(c.entrypoints@))
        + (if c.includes@.len() > 0 || c.exclude@.len() > 0 || c.entrypoints@.len() > 0 { seq!['\n'] } else { Seq::empty() })
}

/// Every rule at the document root, under a comment, or nothing.
pub open spec fn rules_part(rules: Seq<Seq<char>>) -> Seq<char> {
    if rules.len() == 0 {
        Seq::empty()
    } else {
        "# Allowed dependency directions. Anything else between two declared\n"@ + "# layers is a violation.\n"@
            + "rules = "@ + toml_list(rules) + seq!['\n', '\n']
    }
}

/// The document a configuration is written as.
pub open spec fn toml_document(c: ZatlasConfig) -> Seq<char> {
    toml_header() + scan_part(c) + rules_part(rule_strings(c)) + layer_blocks(c.layers@) + lsp_section(c.lsp)
}

fn append(out: &mut String, piece: &str)
    ensures
        final(out)@ == old(out)@ + piece@,
{
    let joined = concat(out.as_str(), piece);
    *out = joined;
}

fn is_default_settings(s: &LspSettings) -> (r: bool)
    ensures
        r == is_default_lsp(*s),
{
    let off = match s.mode {
        LspMode::Off => true,
        _ => false,
    };
    off && s.timeout_ms == 5_000 && s.startup_ms == 30_000 && s.budget_ms == 120_000 && s.servers.len() == 0
}

fn mode_name(m: LspMode) -> (r: &'static str)
    ensures
        r@ == mode_word(m),
{
    match m {
        LspMode::Off => "off",
        LspMode::Repair => "repair",
        LspMode::Verify => "verify",
    }
}

fn append_list_section(out: &mut String, comment: &str, key: &str, vs: &Vec<String>)
    ensures
        final(out)@ == old(out)@ + list_section(comment@, key@, strs(vs@)),
{
    if vs.len() > 0 {
        append(out, comment);
        append(out, key);
        let list = toml_array(vs);
        append(out, list.as_str());
        append(out, "\n");
        proof { reveal_strlit("\n"); }
        assert(final(out)@ =~= old(out)@ + list_section(comment@, key@, strs(vs@)));
    } else {
        assert(old(out)@ + list_section(comment@, key@, strs(vs@)) =~= old(out)@);
    }
}

fn append_scan_part(out: &mut String, c: &ZatlasConfig)
    ensures
        final(out)@ == old(out)@ + scan_part(*c),
{
    let key = string_of(&['i', 'n', 'c', 'l', 'u', 'd', 'e', ' ', '=', ' ']);
    append_list_section(out, "# Globs limiting the scan. Empty means everything the walk finds.\n", key.as_str(), &c.includes);
    append_list_section(out, "# Removed from the scan, applied after `include`.\n", "exclude = ", &c.exclude);
    append_list_section(out, "# Files treated as roots. Without these, every `main` looks like an orphan.\n", "entrypoints = ", &c.entrypoints);
    if c.includes.len() > 0 || c.exclude.len() > 0 || c.entrypoints.len() > 0 {
        append(out, "\n");
        proof { reveal_strlit("\n"); }
    }
    assert(final(out)@ =~= old(out)@ + scan_part(*c));
}

fn append_rules_part(out: &mut String, rules: &Vec<String>)
    ensures
        final(out)@ == old(out)@ + rules_part(strs(rules@)),
{
    if rules.len() > 0 {
        append(out, "# Allowed dependency directions. Anything else between two declared\n");
        append(out, "# layers is a violation.\n");
        append(out, "rules = ");
        let list = toml_array(rules);
        append(out, list.as_str());
        append(out, "\n\n");
        proof { reveal_strlit("\n\n"); }
    }
    assert(final(out)@ =~= old(out)@ + rules_part(strs(rules@)));
}

fn append_layer_blocks(out: &mut String, layers: &Vec<Layer>)
    ensures
        final(out)@ == old(out)@ + layer_blocks(layers@),
{
    let ghost start = out@;
    let mut i: usize = 0;
    assert(layers@.take(0) =~= Seq::<Layer>::empty());
    assert(out@ =~= start + layer_blocks(layers@.take(0)));
    while i < layers.len()
        invariant
            i <= layers@.len(),
            out@ == start + layer_blocks(layers@.take(i as int)),
        decreases layers@.len() - i,
    {
        assert(layers@.take(i + 1).drop_last() =~= layers@.take(i as int));
        let layer = &layers[i];
        append(out, "[[layers]]\n");
        append(out, "name = ");
        let name = toml_string(layer.name.as_str());
        append(out, name.as_str());
        append(out, "\n");
        append(out, "paths = ");
        let paths = toml_array(&layer.paths);
        append(out, paths.as_str());
        append(out, "\n\n");
        proof {
            reveal_strlit("\n");
            reveal_strlit("\n\n");
        }
        assert(out@ =~= start + layer_blocks(layers@.take(i + 1)));
        i += 1;
    }
    assert(layers@.take(i as int) =~= layers@);
}

fn append_lsp_section(out: &mut String, s: &LspSettings)
    ensures
        final(out)@ == old(out)@ + lsp_section(*s),
{
    if !is_default_settings(s) {
        append(out, "[lsp]\n");
        append(out, "mode = ");
        let mode = toml_string(mode_name(s.mode));
        append(out, mode.as_str());
        append(out, "\n");
        proof { reveal_strlit("\n"); }
        if s.servers.len() > 0 {
            append(out, "servers = ");
            let list = toml_array(&s.servers);
            append(out, list.as_str());
            append(out, "\n");
        }
    }
    assert(final(out)@ =~= old(out)@ + lsp_section(*s));
}

impl ZatlasConfig {
    /// The configuration as a TOML document: a header comment, the scan
    /// lists that are set, every rule at the document root (before any
    /// layer block, so that TOML does not bind them to the last layer), a
    /// block per layer, and the `[lsp]` table where it differs from the
    /// defaults.
    pub fn to_toml(&self) -> (r: String)
        ensures
            r@ == toml_document(*self),
    {
        let mut out = String::new();
        assert(out@ =~= Seq::<char>::empty());
        append(&mut out, "# Written by ZAtlas. Safe to edit by hand.\n");
        append(&mut out, "# https://github.com/TheHolyOneZ/ZAtlas\n\n");
        append_scan_part(&mut out, self);
        let rules = self.all_rule_strings();
        append_rules_part(&mut out, &rules);
        append_layer_blocks(&mut out, &self.layers);
        append_lsp_section(&mut out, &self.lsp);
        assert(out@ =~= toml_document(*self));
        out
    }
}

/// Where the cache lives: `.zatlas` under the repository root.
pub fn cache_dir(root: &str) -> (r: String)
    ensures
        exists|sep: char| (sep == '/' || sep == '\\') && r@ == push_segment(root@, ".zatlas"@, sep),
{
    let r = rel_to_path(root, ".zatlas");
    proof {
        reveal_strlit(".zatlas");
        let sep = choose|sep: char| (sep == '/' || sep == '\\') && r@ == rel_joined(root@, ".zatlas"@, sep);
        lemma_split_plain(".zatlas"@, '/');
        assert(seq![".zatlas"@].drop_last() =~= Seq::<Seq<char>>::empty());
        assert(joined_path(root@, Seq::<Seq<char>>::empty(), sep) == root@);
        assert(seq![".zatlas"@].last() == ".zatlas"@);
        assert(joined_path(root@, seq![".zatlas"@], sep) == push_segment(root@, ".zatlas"@, sep));
        assert(r@ == push_segment(root@, ".zatlas"@, sep));
    }
    r
}

/// Where the cache database lives: `cache.sqlite` in the cache directory.
pub fn cache_db_path(root: &str) -> (r: String)
    ensures
        exists|sep: char| (sep == '/' || sep == '\\') && r@ == push_segment(push_segment(root@, ".zatlas"@, sep), "cache.sqlite"@, sep),
{
    let r = rel_to_path(root, ".zatlas/cache.sqlite");
    proof {
        reveal_strlit(".zatlas/cache.sqlite");
        reveal_strlit(".zatlas");
        reveal_strlit("cache.sqlite");
        let sep = choose|sep: char| (sep == '/' || sep == '\\') && r@ == rel_joined(root@, ".zatlas/cache.sqlite"@, sep);
        let whole = ".zatlas/cache.sqlite"@;
        assert(whole.take(7) =~= ".zatlas"@);
        assert(whole.skip(8) =~= "cache.sqlite"@);
        lemma_split_plain(".zatlas"@, '/');
        lemma_split_after(".zatlas"@, "cache.sqlite"@, '/');
        assert(whole =~= ".zatlas"@.push('/') + "cache.sqlite"@);
        let parts = seq![".zatlas"@, "cache.sqlite"@];
        assert(parts.drop_last() =~= seq![".zatlas"@]);
        assert(seq![".zatlas"@].drop_last() =~= Seq::<Seq<char>>::empty());
        assert(joined_path(root@, Seq::<Seq<char>>::empty(), sep) == root@);
        assert(seq![".zatlas"@].last() == ".zatlas"@);
        assert(joined_path(root@, seq![".zatlas"@], sep) == push_segment(root@, ".zatlas"@, sep));
        assert(parts.last() == "cache.sqlite"@);
        assert(joined_path(root@, parts, sep) == push_segment(push_segment(root@, ".zatlas"@, sep), "cache.sqlite"@, sep));
        assert(r@ == push_segment(push_segment(root@, ".zatlas"@, sep), "cache.sqlite"@, sep));
    }
    r
}

proof fn lemma_split_plain(s: Seq<char>, sep: char)
    requires
        !s.contains(sep),
    ensures
        split(s, sep) == seq![s],
    decreases s.len(),
{
    if s.len() > 0 {
        assert(!s.drop_last().contains(sep)) by {
            if s.drop_last().contains(sep) {
                let k = choose|k: int| 0 <= k < s.drop_last().len() && s.drop_last()[k] == sep;
                assert(s[k] == sep);
            }
        }
        lemma_split_plain(s.drop_last(), sep);
        assert(s.last() != sep) by {
            assert(s[s.len() - 1] == s.last());
        }
        assert(s.drop_last().push(s.last()) =~= s);
    } else {
        assert(s =~= Seq::<char>::empty());
    }
}

proof fn lemma_split_after(a: Seq<char>, b: Seq<char>, sep: char)
    requires
        !a.contains(sep),
        !b.contains(sep),
    ensures
        split(a.push(sep) + b, sep) == seq![a, b],
    decreases b.len(),
{
    if b.len() == 0 {
        lemma_split_plain(a, sep);
        assert(a.push(sep) + b =~= a.push(sep));
        assert(a.push(sep).drop_last() =~= a);
        assert(split(a.push(sep), sep) == split(a, sep).push(Seq::<char>::empty()));
        assert(b =~= Seq::<char>::empty());
        assert(seq![a].push(Seq::<char>::empty()) =~= seq![a, b]);
    } else {
        assert(!b.drop_last().contains(sep)) by {
            if b.drop_last().contains(sep) {
                let k = choose|k: int| 0 <= k < b.drop_last().len() && b.drop_last()[k] == sep;
                assert(b[k] == sep);
            }
        }
        lemma_split_after(a, b.drop_last(), sep);
        assert((a.push(sep) + b).drop_last() =~= a.push(sep) + b.drop_last());
        assert((a.push(sep) + b).last() == b.last());
        assert(b.last() != sep) by {
            assert(b[b.len() - 1] == b.last());
        }
        assert(b.drop_last().push(b.last()) =~= b);
        let prev = seq![a, b.drop_last()];
        assert(split(a.push(sep) + b, sep) == prev.update(1, prev.last().push(b.last())));
        assert(prev.update(1, prev.last().push(b.last())) =~= seq![a, b]);
    }
}

} // verus!
