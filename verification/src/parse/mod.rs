//! What a source file declares: its imports, exports and definitions, and its size.
pub mod tree;
pub mod grammar;
pub mod go;
pub mod python;
pub mod javascript;
pub mod rust;

use crate::model::Language;
use crate::findings::{contains_chars, contains_text};
use crate::lsp::source_lines;
use crate::order::{count_not_before, stable_sorted, str_before};
use crate::text::{is_prefix, trim};
use vstd::utf8::encode_utf8;
use crate::parse::grammar::{damage, damage_upto, syntax_nodes, syntax_tree};
use crate::parse::tree::{views, NodeView, SyntaxTree};

use vstd::prelude::*;

verus! {

/// How an import was written.
#[derive(Debug, Clone, Copy, PartialEq, Eq, Structural)]
pub enum ImportKind {
    Static,
    ReExport,
    Dynamic,
    Require,
    ModDecl,
}

/// Which names an import brings in.
#[derive(Debug, Clone, PartialEq, Eq)]
pub enum ImportedNames {
    Named(Vec<String>),
    Namespace,
    Default,
    SideEffect,
}

/// One import statement as written in the source.
#[derive(Debug, Clone, PartialEq, Eq)]
pub struct RawImport {
    pub specifier: String,
    pub line: u32,
    pub kind: ImportKind,
    pub names: ImportedNames,
    pub type_only: bool,
    pub scope: Option<String>,
}

/// One exported name; `from` is set when it is forwarded from another module.
#[derive(Debug, Clone, PartialEq, Eq)]
pub struct ExportItem {
    pub name: String,
    pub from: Option<String>,
    pub line: u32,
}

/// One top-level definition.
#[derive(Debug, Clone, PartialEq, Eq)]
pub struct Definition {
    pub name: String,
    pub kind: DefKind,
    pub line: u32,
    pub exported: bool,
}

/// What kind of thing a definition is.
#[derive(Debug, Clone, Copy, PartialEq, Eq, Structural)]
pub enum DefKind {
    Function,
    Class,
    Struct,
    Enum,
    Trait,
    Interface,
    TypeAlias,
    Const,
    Impl,
    Module,
}

/// Everything extracted from one file.
#[derive(Debug, Clone, PartialEq)]
pub struct ParsedFile {
    pub imports: Vec<RawImport>,
    pub exports: Vec<ExportItem>,
    pub definitions: Vec<Definition>,
    pub loc: u32,
    pub total_lines: u32,
    pub errors: usize,
    pub missing: usize,
}

/// The modules an export list forwards from, in order.
pub open spec fn forwarded_from(exports: Seq<ExportItem>) -> Seq<Seq<char>>
    decreases exports.len(),
{
    if exports.len() == 0 {
        Seq::<Seq<char>>::empty()
    } else {
        let prev = forwarded_from(exports.drop_last());
        match exports.last().from {
            Some(f) => prev.push(f@),
            None => prev,
        }
    }
}

impl ParsedFile {
    /// An empty result: nothing found, no lines.
    pub fn empty() -> (p: ParsedFile)
        ensures
            p.imports@.len() == 0,
            p.exports@.len() == 0,
            p.definitions@.len() == 0,
            p.loc == 0,
            p.total_lines == 0,
            p.errors == 0,
            p.missing == 0,
    {
        ParsedFile {
            imports: Vec::new(),
            exports: Vec::new(),
            definitions: Vec::new(),
            loc: 0,
            total_lines: 0,
            errors: 0,
            missing: 0,
        }
    }

    /// The parser met no error and no missing node.
    pub fn is_clean(&self) -> (r: bool)
        ensures
            r == (self.errors == 0 && self.missing == 0),
    {
        self.errors == 0 && self.missing == 0
    }

    /// The specifiers this file re-exports from, in order.
    pub fn reexport_specifiers(&self) -> (r: Vec<&str>)
        ensures
            r@.map_values(|s: &str| s@) == forwarded_from(self.exports@),
    {
        let mut out: Vec<&str> = Vec::new();
        let mut i: usize = 0;
        while i < self.exports.len()
            invariant
                i <= self.exports@.len(),
                out@.map_values(|s: &str| s@) == forwarded_from(self.exports@.take(i as int)),
            decreases self.exports@.len() - i,
        {
            assert(self.exports@.take(i + 1).drop_last() == self.exports@.take(i as int));
            match &self.exports[i].from {
                Some(f) => {
                    out.push(f.as_str());
                },
                None => {},
            }
            i += 1;
        }
        assert(self.exports@.take(i as int) == self.exports@);
        out
    }
}

/// Which names an import brings in, as text.
pub enum NamesView {
    Named(Seq<Seq<char>>),
    Namespace,
    Default,
    SideEffect,
}

impl View for ImportedNames {
    type V = NamesView;

    open spec fn view(&self) -> NamesView {
        match self {
            ImportedNames::Named(v) => NamesView::Named(v@.map_values(|s: String| s@)),
            ImportedNames::Namespace => NamesView::Namespace,
            ImportedNames::Default => NamesView::Default,
            ImportedNames::SideEffect => NamesView::SideEffect,
        }
    }
}

/// An import as plain values.
pub struct ImportView {
    pub specifier: Seq<char>,
    pub line: u32,
    pub kind: ImportKind,
    pub names: NamesView,
    pub type_only: bool,
    pub scope: Option<Seq<char>>,
}

impl View for RawImport {
    type V = ImportView;

    open spec fn view(&self) -> ImportView {
        ImportView {
            specifier: self.specifier@,
            line: self.line,
            kind: self.kind,
            names: self.names@,
            type_only: self.type_only,
            scope: match self.scope {
                Some(s) => Some(s@),
                None => None,
            },
        }
    }
}

/// An export as plain values.
pub struct ExportView {
    pub name: Seq<char>,
    pub from: Option<Seq<char>>,
    pub line: u32,
}

impl View for ExportItem {
    type V = ExportView;

    open spec fn view(&self) -> ExportView {
        ExportView {
            name: self.name@,
            from: match self.from {
                Some(f) => Some(f@),
                None => None,
            },
            line: self.line,
        }
    }
}

/// A definition as plain values.
pub struct DefView {
    pub name: Seq<char>,
    pub kind: DefKind,
    pub line: u32,
    pub exported: bool,
}

impl View for Definition {
    type V = DefView;

    open spec fn view(&self) -> DefView {
        DefView { name: self.name@, kind: self.kind, line: self.line, exported: self.exported }
    }
}

/// What a part of a file contributes: imports, exports and definitions.
pub struct Found {
    pub imports: Vec<RawImport>,
    pub exports: Vec<ExportItem>,
    pub definitions: Vec<Definition>,
}

/// What a part of a file contributes, as plain values.
pub struct FoundView {
    pub imports: Seq<ImportView>,
    pub exports: Seq<ExportView>,
    pub definitions: Seq<DefView>,
}

impl View for Found {
    type V = FoundView;

    open spec fn view(&self) -> FoundView {
        FoundView {
            imports: self.imports@.map_values(|i: RawImport| i@),
            exports: self.exports@.map_values(|e: ExportItem| e@),
            definitions: self.definitions@.map_values(|d: Definition| d@),
        }
    }
}

/// Nothing found.
pub open spec fn nothing() -> FoundView {
    FoundView { imports: Seq::empty(), exports: Seq::empty(), definitions: Seq::empty() }
}

/// Two contributions, one after the other.
pub open spec fn both(a: FoundView, b: FoundView) -> FoundView {
    FoundView { imports: a.imports + b.imports, exports: a.exports + b.exports, definitions: a.definitions + b.definitions }
}

impl Found {
    /// Nothing found yet.
    pub fn new() -> (r: Found)
        ensures
            r@ == nothing(),
    {
        let r = Found { imports: Vec::new(), exports: Vec::new(), definitions: Vec::new() };
        assert(r@ =~= nothing()) by {
            assert(r@.imports =~= Seq::<ImportView>::empty());
            assert(r@.exports =~= Seq::<ExportView>::empty());
            assert(r@.definitions =~= Seq::<DefView>::empty());
        }
        r
    }

    /// Adds what `other` found after what this one found.
    pub fn extend(&mut self, other: Found)
        ensures
            final(self)@ == both(old(self)@, other@),
    {
        let ghost a = self@;
        let mut o = other;
        let ghost b = o@;
        self.imports.append(&mut o.imports);
        self.exports.append(&mut o.exports);
        self.definitions.append(&mut o.definitions);
        assert(self.imports@.map_values(|i: RawImport| i@) =~= a.imports + b.imports);
        assert(self.exports@.map_values(|e: ExportItem| e@) =~= a.exports + b.exports);
        assert(self.definitions@.map_values(|d: Definition| d@) =~= a.definitions + b.definitions);
    }
}

/// The line (counted from one) of a node that starts on row `row` (counted
/// from zero); the last line a `u32` holds for rows past it.
pub open spec fn line_of_row(row: usize) -> u32 {
    if row >= u32::MAX { u32::MAX } else { (row + 1) as u32 }
}

/// The line of a node.
pub fn line_at(row: usize) -> (r: u32)
    ensures
        r == line_of_row(row),
{
    if row >= 4294967295usize { 4294967295u32 } else { (row + 1) as u32 }
}

/// Whether a character opens a quoted string.
pub open spec fn is_quote(c: char) -> bool {
    c == '"' || c == '\'' || c == '`'
}

/// The text inside a pair of matching quotes, or the text itself.
pub open spec fn unquoted(t: Seq<char>) -> Seq<char> {
    if t.len() >= 2 && is_quote(t[0]) && t[0] == t.last() {
        t.subrange(1, t.len() - 1)
    } else {
        t
    }
}

/// The text inside a pair of matching quotes, or the text itself.
pub fn unquote(text: &str) -> (r: String)
    ensures
        r@ == unquoted(text@),
{
    let cs = crate::text::chars_of(text);
    let n = cs.len();
    if n >= 2 && (cs[0] == '"' || cs[0] == '\'' || cs[0] == '`') && cs[0] == cs[n - 1] {
        crate::text::string_of(vstd::slice::slice_subrange(cs.as_slice(), 1, n - 1))
    } else {
        crate::text::owned(text)
    }
}

/// The comment marker that starts a line comment in a language.
pub open spec fn line_comment(l: Language) -> Seq<char> {
    match l {
        Language::Python => "#"@,
        _ => "//"@,
    }
}

/// Counting lines of code over `lines`: whether a block comment is open,
/// and how many lines counted so far.
pub open spec fn loc_state(lines: Seq<Seq<char>>, comment: Seq<char>) -> (bool, nat)
    decreases lines.len(),
{
    if lines.len() == 0 {
        (false, 0)
    } else {
        let (in_block, count) = loc_state(lines.drop_last(), comment);
        let t = trim(lines.last());
        if in_block {
            (!contains_text(t, "*/"@), count)
        } else if t.len() == 0 {
            (false, count)
        } else if is_prefix("/*"@, t) {
            (!contains_text(t, "*/"@), count)
        } else if is_prefix(comment, t) {
            (false, count)
        } else {
            (false, count + 1)
        }
    }
}

/// The lines of code of a source: lines that are neither blank, nor a line
/// comment, nor inside or at the start of a block comment.
pub open spec fn loc_of(language: Language, source: Seq<char>) -> nat {
    loc_state(source_lines(source), line_comment(language)).1
}

/// Counts the lines of code of a source.
pub fn count_loc(language: Language, source: &str) -> (r: u32)
    requires
        source_lines(source@).len() <= u32::MAX,
    ensures
        r == loc_of(language, source@),
{
    let comment = match language {
        Language::Python => crate::text::chars_of("#"),
        _ => crate::text::chars_of("//"),
    };
    let lines = crate::lsp::lines_of(source);
    let ghost ls = source_lines(source@);
    let open = crate::text::chars_of("/*");
    let close = crate::text::chars_of("*/");
    let mut in_block = false;
    let mut count: u32 = 0;
    let mut i: usize = 0;
    while i < lines.len()
        invariant
            ls == source_lines(source@),
            ls.len() <= u32::MAX,
            lines@.map_values(|l: Vec<char>| l@) == ls,
            comment@ == line_comment(language),
            open@ == "/*"@,
            close@ == "*/"@,
            i <= ls.len(),
            (in_block, count as nat) == loc_state(ls.take(i as int), comment@),
            count <= i,
        decreases ls.len() - i,
    {
        assert(ls.take(i + 1).drop_last() =~= ls.take(i as int));
        assert(ls.take(i + 1).last() == lines@[i as int]@);
        let t = crate::text::trim_chars(lines[i].as_slice());
        if in_block {
            if contains_chars(t.as_slice(), close.as_slice()) {
                in_block = false;
            }
        } else if t.len() == 0 {
        } else if crate::text::starts_with(t.as_slice(), open.as_slice()) {
            if !contains_chars(t.as_slice(), close.as_slice()) {
                in_block = true;
            }
        } else if crate::text::starts_with(t.as_slice(), comment.as_slice()) {
        } else {
            count += 1;
        }
        i += 1;
    }
    assert(ls.take(i as int) =~= ls);
    count
}

proof fn lemma_split_at_sep(x: Seq<char>, y: Seq<char>, sep: char)
    ensures
        crate::text::split(x.push(sep) + y, sep) == crate::text::split(x, sep) + crate::text::split(y, sep),
    decreases y.len(),
{
    let z = x.push(sep) + y;
    if y.len() == 0 {
        assert(z =~= x.push(sep));
        assert(z.drop_last() =~= x);
        assert(crate::text::split(x, sep).push(Seq::<char>::empty()) =~= crate::text::split(x, sep) + seq![Seq::<char>::empty()]);
    } else {
        let y1 = y.drop_last();
        lemma_split_at_sep(x, y1, sep);
        assert(z.drop_last() =~= x.push(sep) + y1);
        assert(z.last() == y.last());
        crate::text::lemma_split_nonempty(y1, sep);
        let a = crate::text::split(x, sep);
        let b = crate::text::split(y1, sep);
        if y.last() == sep {
            assert((a + b).push(Seq::<char>::empty()) =~= a + b.push(Seq::<char>::empty()));
        } else {
            assert((a + b).update((a + b).len() - 1, (a + b).last().push(y.last()))
                =~= a + b.update(b.len() - 1, b.last().push(y.last())));
        }
    }
}

proof fn lemma_split_no_sep(l: Seq<char>, sep: char)
    requires
        forall|i: int| 0 <= i < l.len() ==> l[i] != sep,
    ensures
        crate::text::split(l, sep) == seq![l],
    decreases l.len(),
{
    if l.len() > 0 {
        lemma_split_no_sep(l.drop_last(), sep);
        assert(l.drop_last().push(l.last()) =~= l);
        assert(seq![l.drop_last()].update(0, l.drop_last().push(l.last())) =~= seq![l]);
    } else {
        assert(l =~= Seq::<char>::empty());
    }
}

proof fn lemma_loc_state_continue(xs: Seq<Seq<char>>, zs: Seq<Seq<char>>, ys: Seq<Seq<char>>, comment: Seq<char>)
    requires
        loc_state(xs, comment) == loc_state(zs, comment),
    ensures
        loc_state(xs + ys, comment) == loc_state(zs + ys, comment),
    decreases ys.len(),
{
    if ys.len() == 0 {
        assert(xs + ys =~= xs);
        assert(zs + ys =~= zs);
    } else {
        lemma_loc_state_continue(xs, zs, ys.drop_last(), comment);
        assert((xs + ys).drop_last() =~= xs + ys.drop_last());
        assert((zs + ys).drop_last() =~= zs + ys.drop_last());
        assert((xs + ys).last() == ys.last());
        assert((zs + ys).last() == ys.last());
    }
}

proof fn lemma_hash_line_counts_nothing(ls: Seq<Seq<char>>, l: Seq<char>)
    requires
        is_prefix("#"@, trim(l)),
        !contains_text(trim(l), "*/"@),
    ensures
        loc_state(ls.push(l), line_comment(Language::Python)) == loc_state(ls, line_comment(Language::Python)),
{
    reveal_strlit("#");
    reveal_strlit("/*");
    let t = trim(l);
    assert(ls.push(l).drop_last() =~= ls);
    assert(t[0] == '#') by {
        assert(t.subrange(0, 1) == "#"@);
        assert(t.subrange(0, 1)[0] == t[0]);
    }
    assert(!is_prefix("/*"@, t)) by {
        if is_prefix("/*"@, t) {
            assert(t.subrange(0, 2)[0] == t[0]);
        }
    }
}

/// In Python a line whose trimmed text starts with `#` is a comment, not
/// code: taking such a line out of a source (anywhere, as a whole line)
/// leaves its lines of code unchanged. The line must not close a block
/// comment, since that would change how the lines after it are read.
pub proof fn lemma_python_comment_line_not_code(a: Seq<char>, l: Seq<char>, b: Seq<char>)
    requires
        a.len() == 0 || a.last() == '\n',
        forall|i: int| 0 <= i < l.len() ==> l[i] != '\n' && l[i] != '\r',
        is_prefix("#"@, trim(l)),
        !contains_text(trim(l), "*/"@),
    ensures
        loc_of(Language::Python, a + l + seq!['\n'] + b) == loc_of(Language::Python, a + b),
{
    let with = a + l + seq!['\n'] + b;
    let without = a + b;
    let pre: Seq<Seq<char>> = if a.len() == 0 { Seq::empty() } else { crate::text::split(a.drop_last(), '\n') };
    let q = crate::text::split(b, '\n');
    lemma_split_no_sep(l, '\n');
    lemma_split_at_sep(l, b, '\n');
    assert(l.push('\n') + b =~= l + seq!['\n'] + b);
    if a.len() == 0 {
        assert(with =~= l.push('\n') + b);
        assert(without =~= b);
        assert(crate::text::split(with, '\n') =~= pre + seq![l] + q);
        assert(crate::text::split(without, '\n') =~= pre + q);
    } else {
        let a0 = a.drop_last();
        assert(with =~= a0.push('\n') + (l.push('\n') + b));
        assert(without =~= a0.push('\n') + b);
        lemma_split_at_sep(a0, l.push('\n') + b, '\n');
        lemma_split_at_sep(a0, b, '\n');
        assert(crate::text::split(with, '\n') =~= pre + seq![l] + q);
        assert(crate::text::split(without, '\n') =~= pre + q);
    }
    crate::text::lemma_split_nonempty(b, '\n');
    let pw = crate::text::split(with, '\n');
    let po = crate::text::split(without, '\n');
    assert(crate::lsp::strip_cr(l) == l) by {
        if l.len() > 0 {
            assert(l[l.len() - 1] != '\r');
        }
    }
    let pm = pre.map_values(|p: Seq<char>| crate::lsp::strip_cr(p));
    let qm = q.take(q.len() - 1).map_values(|p: Seq<char>| crate::lsp::strip_cr(p));
    let rest = if q.last().len() == 0 { qm } else { qm.push(q.last()) };
    assert(pw.take(pw.len() - 1) =~= pre + seq![l] + q.take(q.len() - 1));
    assert(po.take(po.len() - 1) =~= pre + q.take(q.len() - 1));
    assert(pw.last() == q.last());
    assert(po.last() == q.last());
    assert(pw.take(pw.len() - 1).map_values(|p: Seq<char>| crate::lsp::strip_cr(p)) =~= pm.push(l) + qm);
    assert(po.take(po.len() - 1).map_values(|p: Seq<char>| crate::lsp::strip_cr(p)) =~= pm + qm);
    assert(source_lines(with) =~= pm.push(l) + rest);
    assert(source_lines(without) =~= pm + rest);
    lemma_hash_line_counts_nothing(pm, l);
    lemma_loc_state_continue(pm.push(l), pm, rest, line_comment(Language::Python));
}

/// Imports are ordered by line, then specifier.
pub open spec fn import_before(a: ImportView, b: ImportView) -> bool {
    a.line < b.line || (a.line == b.line && str_before(a.specifier, b.specifier, false))
}

/// Exports are ordered by line, then name.
pub open spec fn export_before(a: ExportView, b: ExportView) -> bool {
    a.line < b.line || (a.line == b.line && str_before(a.name, b.name, false))
}

/// Definitions are ordered by line, then name.
pub open spec fn def_before(a: DefView, b: DefView) -> bool {
    a.line < b.line || (a.line == b.line && str_before(a.name, b.name, false))
}

fn line_text_before(al: u32, a: &str, bl: u32, b: &str) -> (r: bool)
    ensures
        r == (al < bl || (al == bl && str_before(a@, b@, false))),
{
    al < bl || (al == bl && crate::order::is_before(a, b, false))
}

/// The imports in order of line and specifier; ties keep their order.
pub fn sort_imports(items: Vec<RawImport>) -> (r: Vec<RawImport>)
    ensures
        r@.map_values(|i: RawImport| i@) == stable_sorted(items@.map_values(|i: RawImport| i@), |a: ImportView, b: ImportView| import_before(a, b)),
{
    let ghost before = |a: ImportView, b: ImportView| import_before(a, b);
    let ghost raw = items@.map_values(|i: RawImport| i@);
    let total = items.len();
    let mut rest = items;
    let mut sorted: Vec<RawImport> = Vec::new();
    let mut taken: usize = 0;
    while rest.len() > 0
        invariant
            total == raw.len(),
            taken <= raw.len(),
            rest@.map_values(|i: RawImport| i@) == raw.skip(taken as int),
            before == |a: ImportView, b: ImportView| import_before(a, b),
            sorted@.map_values(|i: RawImport| i@) == stable_sorted(raw.take(taken as int), before),
        decreases rest@.len(),
    {
        let ghost rv = rest@.map_values(|i: RawImport| i@);
        let ghost old_rest = rest@;
        let x = rest.remove(0);
        assert(rest@ =~= old_rest.skip(1));
        assert(rest@.map_values(|i: RawImport| i@) =~= rv.skip(1));
        let ghost xv = x@;
        assert(rv[0] == xv);
        assert(taken < raw.len());
        assert(raw.skip(taken as int)[0] == raw[taken as int]);
        assert(raw.take(taken + 1).drop_last() == raw.take(taken as int));
        assert(raw.take(taken + 1).last() == xv);
        let ghost s = sorted@.map_values(|i: RawImport| i@);
        let mut count: usize = 0;
        let mut k: usize = 0;
        while k < sorted.len()
            invariant
                k <= sorted@.len(),
                s == sorted@.map_values(|i: RawImport| i@),
                before == |a: ImportView, b: ImportView| import_before(a, b),
                xv == x@,
                count == count_not_before(s.take(k as int), xv, before),
                count <= k,
            decreases sorted@.len() - k,
        {
            assert(s.take(k + 1).drop_last() == s.take(k as int));
            assert(s[k as int] == sorted@[k as int]@);
            if !line_text_before(x.line, x.specifier.as_str(), sorted[k].line, sorted[k].specifier.as_str()) {
                count += 1;
            }
            k += 1;
        }
        assert(s.take(k as int) == s);
        sorted.insert(count, x);
        assert(sorted@.map_values(|i: RawImport| i@) =~= s.insert(count as int, xv));
        taken += 1;
        assert(rest@.map_values(|i: RawImport| i@) =~= raw.skip(taken as int));
    }
    assert(raw.take(taken as int) =~= raw);
    sorted
}

/// The exports in order of line and name; ties keep their order.
pub fn sort_exports(items: Vec<ExportItem>) -> (r: Vec<ExportItem>)
    ensures
        r@.map_values(|i: ExportItem| i@) == stable_sorted(items@.map_values(|i: ExportItem| i@), |a: ExportView, b: ExportView| export_before(a, b)),
{
    let ghost before = |a: ExportView, b: ExportView| export_before(a, b);
    let ghost raw = items@.map_values(|i: ExportItem| i@);
    let total = items.len();
    let mut rest = items;
    let mut sorted: Vec<ExportItem> = Vec::new();
    let mut taken: usize = 0;
    while rest.len() > 0
        invariant
            total == raw.len(),
            taken <= raw.len(),
            rest@.map_values(|i: ExportItem| i@) == raw.skip(taken as int),
            before == |a: ExportView, b: ExportView| export_before(a, b),
            sorted@.map_values(|i: ExportItem| i@) == stable_sorted(raw.take(taken as int), before),
        decreases rest@.len(),
    {
        let ghost rv = rest@.map_values(|i: ExportItem| i@);
        let ghost old_rest = rest@;
        let x = rest.remove(0);
        assert(rest@ =~= old_rest.skip(1));
        assert(rest@.map_values(|i: ExportItem| i@) =~= rv.skip(1));
        let ghost xv = x@;
        assert(rv[0] == xv);
        assert(taken < raw.len());
        assert(raw.skip(taken as int)[0] == raw[taken as int]);
        assert(raw.take(taken + 1).drop_last() == raw.take(taken as int));
        assert(raw.take(taken + 1).last() == xv);
        let ghost s = sorted@.map_values(|i: ExportItem| i@);
        let mut count: usize = 0;
        let mut k: usize = 0;
        while k < sorted.len()
            invariant
                k <= sorted@.len(),
                s == sorted@.map_values(|i: ExportItem| i@),
                before == |a: ExportView, b: ExportView| export_before(a, b),
                xv == x@,
                count == count_not_before(s.take(k as int), xv, before),
                count <= k,
            decreases sorted@.len() - k,
        {
            assert(s.take(k + 1).drop_last() == s.take(k as int));
            assert(s[k as int] == sorted@[k as int]@);
            if !line_text_before(x.line, x.name.as_str(), sorted[k].line, sorted[k].name.as_str()) {
                count += 1;
            }
            k += 1;
        }
        assert(s.take(k as int) == s);
        sorted.insert(count, x);
        assert(sorted@.map_values(|i: ExportItem| i@) =~= s.insert(count as int, xv));
        taken += 1;
        assert(rest@.map_values(|i: ExportItem| i@) =~= raw.skip(taken as int));
    }
    assert(raw.take(taken as int) =~= raw);
    sorted
}

/// The definitions in order of line and name; ties keep their order.
pub fn sort_definitions(items: Vec<Definition>) -> (r: Vec<Definition>)
    ensures
        r@.map_values(|i: Definition| i@) == stable_sorted(items@.map_values(|i: Definition| i@), |a: DefView, b: DefView| def_before(a, b)),
{
    let ghost before = |a: DefView, b: DefView| def_before(a, b);
    let ghost raw = items@.map_values(|i: Definition| i@);
    let total = items.len();
    let mut rest = items;
    let mut sorted: Vec<Definition> = Vec::new();
    let mut taken: usize = 0;
    while rest.len() > 0
        invariant
            total == raw.len(),
            taken <= raw.len(),
            rest@.map_values(|i: Definition| i@) == raw.skip(taken as int),
            before == |a: DefView, b: DefView| def_before(a, b),
            sorted@.map_values(|i: Definition| i@) == stable_sorted(raw.take(taken as int), before),
        decreases rest@.len(),
    {
        let ghost rv = rest@.map_values(|i: Definition| i@);
        let ghost old_rest = rest@;
        let x = rest.remove(0);
        assert(rest@ =~= old_rest.skip(1));
        assert(rest@.map_values(|i: Definition| i@) =~= rv.skip(1));
        let ghost xv = x@;
        assert(rv[0] == xv);
        assert(taken < raw.len());
        assert(raw.skip(taken as int)[0] == raw[taken as int]);
        assert(raw.take(taken + 1).drop_last() == raw.take(taken as int));
        assert(raw.take(taken + 1).last() == xv);
        let ghost s = sorted@.map_values(|i: Definition| i@);
        let mut count: usize = 0;
        let mut k: usize = 0;
        while k < sorted.len()
            invariant
                k <= sorted@.len(),
                s == sorted@.map_values(|i: Definition| i@),
                before == |a: DefView, b: DefView| def_before(a, b),
                xv == x@,
                count == count_not_before(s.take(k as int), xv, before),
                count <= k,
            decreases sorted@.len() - k,
        {
            assert(s.take(k + 1).drop_last() == s.take(k as int));
            assert(s[k as int] == sorted@[k as int]@);
            if !line_text_before(x.line, x.name.as_str(), sorted[k].line, sorted[k].name.as_str()) {
                count += 1;
            }
            k += 1;
        }
        assert(s.take(k as int) == s);
        sorted.insert(count, x);
        assert(sorted@.map_values(|i: Definition| i@) =~= s.insert(count as int, xv));
        taken += 1;
        assert(rest@.map_values(|i: Definition| i@) =~= raw.skip(taken as int));
    }
    assert(raw.take(taken as int) =~= raw);
    sorted
}

/// What the extractor of `language` finds in a tree, before it is put in order.
pub open spec fn found_of(language: Language, ns: Seq<NodeView>, src: Seq<u8>) -> FoundView {
    match language {
        Language::Rust => crate::parse::rust::rs_found(ns, src),
        Language::Python => crate::parse::python::py_found(ns, src),
        Language::Go => crate::parse::go::go_found(ns, src),
        _ => crate::parse::javascript::js_found(ns, src),
    }
}

/// A parsed file as plain values.
pub struct ParsedView {
    pub imports: Seq<ImportView>,
    pub exports: Seq<ExportView>,
    pub definitions: Seq<DefView>,
    pub loc: u32,
    pub total_lines: u32,
    pub errors: usize,
    pub missing: usize,
}

impl View for ParsedFile {
    type V = ParsedView;

    open spec fn view(&self) -> ParsedView {
        ParsedView {
            imports: self.imports@.map_values(|i: RawImport| i@),
            exports: self.exports@.map_values(|e: ExportItem| e@),
            definitions: self.definitions@.map_values(|d: Definition| d@),
            loc: self.loc,
            total_lines: self.total_lines,
            errors: self.errors,
            missing: self.missing,
        }
    }
}

/// What a source parses to, given the nodes of its syntax tree (none when
/// the parser built no tree): its size in lines, its damage, and what it
/// declares, each list in order of line and then text.
pub open spec fn parsed_view(language: Language, source: Seq<char>, nodes: Option<Seq<NodeView>>) -> ParsedView {
    let total = source_lines(source).len() as u32;
    let loc = loc_of(language, source) as u32;
    match nodes {
        None => ParsedView {
            imports: Seq::empty(),
            exports: Seq::empty(),
            definitions: Seq::empty(),
            loc,
            total_lines: total,
            errors: 0,
            missing: 0,
        },
        Some(ns) => {
            let f = found_of(language, ns, encode_utf8(source));
            let d = damage_upto(ns, ns.len() as int);
            ParsedView {
                imports: stable_sorted(f.imports, |a: ImportView, b: ImportView| import_before(a, b)),
                exports: stable_sorted(f.exports, |a: ExportView, b: ExportView| export_before(a, b)),
                definitions: stable_sorted(f.definitions, |a: DefView, b: DefView| def_before(a, b)),
                loc,
                total_lines: total,
                errors: d.0 as usize,
                missing: d.1 as usize,
            }
        },
    }
}

/// Parses `source` given its syntax tree, when the parser built one.
pub fn parse_tree(language: Language, source: &str, tree: Option<SyntaxTree>) -> (r: ParsedFile)
    requires
        source_lines(source@).len() <= u32::MAX,
        match tree {
            Some(t) => t.wf(),
            None => true,
        },
    ensures
        r@ == parsed_view(language, source@, match tree {
            Some(t) => Some(views(t.nodes@)),
            None => None,
        }),
{
    let lines = crate::lsp::lines_of(source);
    let total = lines.len() as u32;
    let loc = count_loc(language, source);
    let mut out = ParsedFile::empty();
    out.loc = loc;
    out.total_lines = total;
    match tree {
        None => {
            proof {
                assert(out@.imports =~= Seq::<ImportView>::empty());
                assert(out@.exports =~= Seq::<ExportView>::empty());
                assert(out@.definitions =~= Seq::<DefView>::empty());
            }
            out
        },
        Some(t) => {
            let d = damage(&t);
            out.errors = d.errors;
            out.missing = d.missing;
            let src = source.as_bytes();
            let found = match language {
                Language::Rust => crate::parse::rust::extract(&t, src),
                Language::Python => crate::parse::python::extract(&t, src),
                Language::Go => crate::parse::go::extract(&t, src),
                _ => crate::parse::javascript::extract(&t, src),
            };
            out.imports = sort_imports(found.imports);
            out.exports = sort_exports(found.exports);
            out.definitions = sort_definitions(found.definitions);
            out
        },
    }
}

/// Parses a source file in `language`: its size, its syntax damage, and

proof fn lemma_split_len(t: Seq<char>, c: char)
    ensures
        crate::text::split(t, c).len() <= t.len() + 1,
    decreases t.len(),
{
    if t.len() > 0 {
        lemma_split_len(t.drop_last(), c);
        crate::text::lemma_split_nonempty(t.drop_last(), c);
        let p = crate::text::split(t.drop_last(), c);
        if t.last() != c {
            assert(p.update(p.len() - 1, p.last().push(t.last())).len() == p.len());
        }
    }
}

/// Whether a text is small enough to parse: fewer than `u32::MAX` bytes,
/// which leaves it fewer lines than that.
pub fn fits_parse(source: &str) -> (r: bool)
    ensures
        r == (encode_utf8(source@).len() < u32::MAX),
        r ==> source_lines(source@).len() <= u32::MAX,
{
    let n = source.as_bytes().len();
    proof {
        crate::text::lemma_encode_len(source@);
        lemma_split_len(source@, '\n');
        crate::text::lemma_split_nonempty(source@, '\n');
    }
    n < 0xffff_ffffusize
}

/// what it imports, exports and defines, each list in order of line.
pub fn parse(language: Language, source: &str) -> (r: ParsedFile)
    requires
        source_lines(source@).len() <= u32::MAX,
    ensures
        r@ == parsed_view(language, source@, syntax_nodes(language, source@)),
{
    let tree = syntax_tree(language, source);
    parse_tree(language, source, tree)
}

} // verus!
