//! Asking language servers where imports go.
pub mod uri;
pub mod servers;
pub mod apply;
pub mod protocol;

use vstd::prelude::*;
use vstd::utf8::{decode_utf8, encode_utf8, is_char_boundary, valid_utf8};
use crate::model::UnresolvedReason;
use crate::resolve::javascript::jsonc::{at_boundary, boundary_at, find_bytes, find_from, lemma_boundary, lemma_found};
use crate::resolve::javascript::jsonc::occurs_at as jsonc_occurs;
use crate::text::{split, split_chars};

verus! {

/// Whether and how language servers are consulted.
#[derive(Debug, Clone, Copy, PartialEq, Eq, Structural)]
pub enum LspMode {
    Off,
    Repair,
    Verify,
}

/// How language servers are used: the mode, the time limits in
/// milliseconds, and the servers allowed (all when empty).
#[derive(Debug, Clone, PartialEq, Eq)]
pub struct LspSettings {
    pub mode: LspMode,
    pub timeout_ms: u64,
    pub startup_ms: u64,
    pub budget_ms: u64,
    pub servers: Vec<String>,
}

impl Default for LspSettings {
    fn default() -> (r: LspSettings)
        ensures
            r.mode == LspMode::Off,
            r.timeout_ms == 5_000,
            r.startup_ms == 30_000,
            r.budget_ms == 120_000,
            r.servers@.len() == 0,
    {
        LspSettings { mode: LspMode::Off, timeout_ms: 5_000, startup_ms: 30_000, budget_ms: 120_000, servers: Vec::new() }
    }
}

/// What a pass over the language servers did.
#[derive(Debug, Clone)]
pub struct LspReport {
    pub servers: Vec<String>,
    pub failed: Vec<String>,
    pub queries: u32,
    pub repaired: u32,
    pub disagreements: u32,
    pub unlocatable: u32,
    pub truncated: bool,
}

impl Default for LspReport {
    fn default() -> (r: LspReport)
        ensures
            r.servers@.len() == 0,
            r.failed@.len() == 0,
            r.queries == 0,
            r.repaired == 0,
            r.disagreements == 0,
            r.unlocatable == 0,
            !r.truncated,
    {
        LspReport { servers: Vec::new(), failed: Vec::new(), queries: 0, repaired: 0, disagreements: 0, unlocatable: 0, truncated: false }
    }
}

impl LspReport {
    /// No server ran, none failed, nothing was asked.
    pub fn is_empty(&self) -> (r: bool)
        ensures
            r == (self.servers@.len() == 0 && self.failed@.len() == 0 && self.queries == 0),
    {
        self.servers.len() == 0 && self.failed.len() == 0 && self.queries == 0
    }
}

/// The unresolved imports worth asking a server about: a missing file, an
/// alias that leads nowhere, a re-export chain too deep, a file outside the
/// module tree.
pub open spec fn worth_asking(r: UnresolvedReason) -> bool {
    r is NoSuchFile || r is UnmatchedAlias || r is ReExportChainTooDeep || r is FileNotInModuleTree
}

/// Whether an unresolved import is worth asking a server about.
pub fn is_failure(reason: &UnresolvedReason) -> (r: bool)
    ensures
        r == worth_asking(*reason),
{
    match reason {
        UnresolvedReason::NoSuchFile(_) | UnresolvedReason::UnmatchedAlias(_)
        | UnresolvedReason::ReExportChainTooDeep(_) | UnresolvedReason::FileNotInModuleTree => true,
        _ => false,
    }
}

/// The UTF-16 length of characters: two units above U+FFFF, one otherwise.
pub open spec fn utf16_len(cs: Seq<char>) -> nat
    decreases cs.len(),
{
    if cs.len() == 0 {
        0
    } else {
        utf16_len(cs.drop_last()) + if (cs.last() as u32) >= 0x10000 { 2nat } else { 1nat }
    }
}

/// A text has no more UTF-16 units than UTF-8 bytes.
pub proof fn lemma_utf16_len_bound(cs: Seq<char>)
    ensures
        utf16_len(cs) <= encode_utf8(cs).len(),
    decreases cs.len(),
{
    if cs.len() > 0 {
        lemma_utf16_len_bound(cs.drop_last());
        let c = cs.last();
        crate::text::lemma_encode_concat(cs.drop_last(), seq![c]);
        assert(cs.drop_last() + seq![c] =~= cs);
        assert(seq![c].drop_first() =~= Seq::<char>::empty());
        assert(seq![c][0] == c);
        assert(encode_utf8(Seq::<char>::empty()) =~= Seq::<u8>::empty());
        assert(encode_utf8(seq![c]) == vstd::utf8::encode_scalar(c as u32) + encode_utf8(seq![c].drop_first()));
        assert(encode_utf8(seq![c]) =~= vstd::utf8::encode_scalar(c as u32));
        vstd::utf8::char_is_scalar(c);
    }
}

/// A prefix has no more UTF-16 units than the whole.
pub proof fn lemma_utf16_prefix(cs: Seq<char>, k: int)
    requires
        0 <= k <= cs.len(),
    ensures
        utf16_len(cs.take(k)) <= utf16_len(cs),
    decreases cs.len() - k,
{
    if k < cs.len() {
        lemma_utf16_prefix(cs, k + 1);
        assert(cs.take(k + 1).drop_last() =~= cs.take(k));
    } else {
        assert(cs.take(k) =~= cs);
    }
}

/// The UTF-16 column of byte `byte_index` (the end, past it) of a line.
pub fn utf16_offset(line: &str, byte_index: usize) -> (r: u32)
    requires
        at_boundary(encode_utf8(line@), if byte_index < encode_utf8(line@).len() { byte_index as int } else { encode_utf8(line@).len() as int }),
        encode_utf8(line@).len() <= u32::MAX,
    ensures
        r == utf16_len(decode_utf8(encode_utf8(line@).take(
            if byte_index < encode_utf8(line@).len() { byte_index as int } else { encode_utf8(line@).len() as int },
        ))),
{
    let b = line.as_bytes();
    let k = if byte_index < b.len() { byte_index } else { b.len() };
    proof {
        vstd::utf8::encode_utf8_valid_utf8(line@);
        lemma_boundary(b@, k as int);
    }
    let (head, _) = line.split_at(k);
    assert(encode_utf8(head@) =~= b@.take(k as int));
    proof {
        vstd::utf8::encode_utf8_decode_utf8(head@);
        lemma_utf16_len_bound(head@);
        crate::text::lemma_encode_concat(head@.take(0), head@);
    }
    let cs = crate::text::chars_of(head);
    let mut total: u32 = 0;
    let mut i: usize = 0;
    while i < cs.len()
        invariant
            i <= cs@.len(),
            utf16_len(cs@) <= u32::MAX,
            total == utf16_len(cs@.take(i as int)),
        decreases cs@.len() - i,
    {
        proof {
            assert(cs@.take(i + 1).drop_last() =~= cs@.take(i as int));
            lemma_utf16_prefix(cs@, i + 1);
        }
        if (cs[i] as u32) >= 0x10000 {
            total += 2;
        } else {
            total += 1;
        }
        i += 1;
    }
    assert(cs@.take(i as int) =~= cs@);
    total
}

/// `p` without one trailing carriage return.
pub open spec fn strip_cr(p: Seq<char>) -> Seq<char> {
    if p.len() > 0 && p.last() == '\r' {
        p.drop_last()
    } else {
        p
    }
}

/// The lines of a text as `str::lines` yields them: split at `\n`, a `\r`
/// before it dropped, no empty line after a final `\n`.
pub open spec fn source_lines(s: Seq<char>) -> Seq<Seq<char>> {
    let ps = split(s, '\n');
    let body = ps.take(ps.len() - 1).map_values(|p: Seq<char>| strip_cr(p));
    if ps.last().len() == 0 {
        body
    } else {
        body.push(ps.last())
    }
}

/// The greatest index in `lo..=hi` that starts a character, else `lo`.
pub open spec fn last_boundary(t: Seq<u8>, lo: int, hi: int) -> int
    decreases hi - lo + 1,
{
    if hi < lo {
        lo
    } else if at_boundary(t, hi) {
        hi
    } else {
        last_boundary(t, lo, hi - 1)
    }
}

/// The UTF-16 column of the middle of the first occurrence of `spec` on line
/// `line` (counted from one), moved back to a character boundary.
pub open spec fn located(source: Seq<char>, line: u32, spec: Seq<char>) -> Option<u32> {
    let ls = source_lines(source);
    if line == 0 || line - 1 >= ls.len() {
        None
    } else {
        let t = encode_utf8(ls[line - 1]);
        let n = encode_utf8(spec);
        match find_from(t, n, 0) {
            None => None,
            Some(start) => {
                let m = last_boundary(t, start, start + n.len() / 2);
                Some(utf16_len(decode_utf8(t.take(m))) as u32)
            },
        }
    }
}

pub(crate) fn lines_of(source: &str) -> (r: Vec<Vec<char>>)
    ensures
        r@.map_values(|l: Vec<char>| l@) == source_lines(source@),
{
    let s = crate::text::chars_of(source);
    let ps = split_chars(s.as_slice(), '\n');
    let ghost sp = split(source@, '\n');
    proof {
        crate::text::lemma_split_nonempty(source@, '\n');
    }
    let n = ps.len();
    let mut out: Vec<Vec<char>> = Vec::new();
    let mut i: usize = 0;
    while i + 1 < n
        invariant
            n == ps@.len(),
            n == sp.len(),
            n >= 1,
            i <= n - 1,
            forall|k: int| 0 <= k < n ==> #[trigger] ps@[k]@ == sp[k],
            out@.map_values(|l: Vec<char>| l@) == sp.take(i as int).map_values(|p: Seq<char>| strip_cr(p)),
        decreases n - i,
    {
        let p = &ps[i];
        let l = if p.len() > 0 && p[p.len() - 1] == '\r' {
            vstd::slice::slice_to_vec(vstd::slice::slice_subrange(p.as_slice(), 0, p.len() - 1))
        } else {
            vstd::slice::slice_to_vec(p.as_slice())
        };
        assert(l@ =~= strip_cr(sp[i as int]));
        let ghost before = out@.map_values(|l: Vec<char>| l@);
        out.push(l);
        assert(out@.map_values(|l: Vec<char>| l@) =~= before.push(strip_cr(sp[i as int])));
        assert(sp.take(i + 1).map_values(|p: Seq<char>| strip_cr(p)) =~= sp.take(i as int).map_values(|p: Seq<char>| strip_cr(p)).push(strip_cr(sp[i as int])));
        i += 1;
    }
    if ps[n - 1].len() > 0 {
        let ghost before = out@.map_values(|l: Vec<char>| l@);
        let last = vstd::slice::slice_to_vec(ps[n - 1].as_slice());
        out.push(last);
        assert(out@.map_values(|l: Vec<char>| l@) =~= before.push(sp.last()));
    }
    out
}

/// The UTF-16 column inside the specifier on the given line (from one) where a
/// server is asked for its definition; nothing when the line or the
/// specifier is not there.
pub fn locate(source: &str, line: u32, specifier: &str) -> (r: Option<u32>)
    requires
        forall|k: int| 0 <= k < source_lines(source@).len() ==> #[trigger] encode_utf8(source_lines(source@)[k]).len() <= u32::MAX,
    ensures
        r == located(source@, line, specifier@),
{
    if line == 0 {
        return None;
    }
    let ls = lines_of(source);
    let idx = (line - 1) as usize;
    if idx >= ls.len() {
        return None;
    }
    let text = crate::text::string_of(ls[idx].as_slice());
    assert(text@ == source_lines(source@)[line - 1]);
    let t = text.as_str().as_bytes();
    let needle = specifier.as_bytes();
    let start = match find_bytes(t, needle, 0) {
        Some(s) => s,
        None => {
            return None;
        },
    };
    proof {
        lemma_found(t@, needle@, 0);
        vstd::utf8::encode_utf8_valid_utf8(text@);
        vstd::utf8::encode_utf8_valid_utf8(specifier@);
        if needle@.len() > 0 {
            vstd::utf8::is_char_boundary_start_end_of_seq(needle@);
            vstd::utf8::is_char_boundary_iff_not_is_continuation_byte(needle@, 0);
            assert(t@.subrange(start as int, start + needle@.len())[0] == t@[start as int]);
            assert(t@[start as int] == needle@[0]);
            assert(!vstd::utf8::is_continuation_byte(needle@[0]));
        } else {
            let marks = Seq::new((t@.len() + 1 - 0) as nat, |k: int| if jsonc_occurs(t@, needle@, 0 + k) { Some(0 + k) } else { None });
            assert(marks.take(0) =~= Seq::<Option<int>>::empty());
            assert(jsonc_occurs(t@, needle@, 0)) by {
                assert(t@.subrange(0, 0) =~= needle@);
            }
            crate::text::lemma_first_some_step(marks, 0);
            crate::text::lemma_first_some_prefix(marks, 1);
        }
        assert(at_boundary(t@, start as int));
    }
    let middle = start + needle.len() / 2;
    let mut m = middle;
    while m > start && !boundary_at(t, m)
        invariant
            start <= m <= middle,
            middle <= t@.len(),
            last_boundary(t@, start as int, middle as int) == last_boundary(t@, start as int, m as int),
        decreases m,
    {
        m -= 1;
    }
    assert(at_boundary(t@, m as int));
    assert(last_boundary(t@, start as int, m as int) == m);
    Some(utf16_offset(text.as_str(), m))
}

} // verus!
