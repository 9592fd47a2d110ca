//! The repository graph: files, modules, edges and the imports that did not resolve.
use vstd::prelude::*;
use crate::text::{concat, owned, str_eq};

verus! {

/// Index of a file in `Graph::files`.
#[derive(Debug, Clone, Copy, PartialEq, Eq, Structural, Hash, PartialOrd, Ord)]
pub struct FileId(pub u32);

/// Index of a module in `Graph::modules`.
#[derive(Debug, Clone, Copy, PartialEq, Eq, Structural, Hash, PartialOrd, Ord)]
pub struct ModuleId(pub u32);

/// Source languages the scanner understands.
#[derive(Debug, Clone, Copy, PartialEq, Eq, Structural, Hash)]
pub enum Language {
    TypeScript,
    Tsx,
    JavaScript,
    Jsx,
    Rust,
    Python,
    Go,
}

/// The label a language is shown under.
pub open spec fn language_label(l: Language) -> Seq<char> {
    match l {
        Language::TypeScript => "TypeScript"@,
        Language::Tsx => "TSX"@,
        Language::JavaScript => "JavaScript"@,
        Language::Jsx => "JSX"@,
        Language::Rust => "Rust"@,
        Language::Python => "Python"@,
        Language::Go => "Go"@,
    }
}

/// The language a file extension (without its dot) belongs to.
pub open spec fn language_of_extension(ext: Seq<char>) -> Option<Language> {
    if ext == "ts"@ || ext == "mts"@ || ext == "cts"@ {
        Some(Language::TypeScript)
    } else if ext == "tsx"@ {
        Some(Language::Tsx)
    } else if ext == "js"@ || ext == "mjs"@ || ext == "cjs"@ {
        Some(Language::JavaScript)
    } else if ext == "jsx"@ {
        Some(Language::Jsx)
    } else if ext == "rs"@ {
        Some(Language::Rust)
    } else if ext == "py"@ || ext == "pyi"@ {
        Some(Language::Python)
    } else if ext == "go"@ {
        Some(Language::Go)
    } else {
        None
    }
}

impl Language {
    /// Every language that has an import resolver.
    pub fn resolved() -> (r: Vec<Language>)
        ensures
            r@ == seq![
                Language::TypeScript,
                Language::Tsx,
                Language::JavaScript,
                Language::Jsx,
                Language::Rust,
                Language::Python,
                Language::Go,
            ],
    {
        vec![
            Language::TypeScript,
            Language::Tsx,
            Language::JavaScript,
            Language::Jsx,
            Language::Rust,
            Language::Python,
            Language::Go,
        ]
    }

    pub fn label(self) -> (r: &'static str)
        ensures
            r@ == language_label(self),
    {
        match self {
            Language::TypeScript => "TypeScript",
            Language::Tsx => "TSX",
            Language::JavaScript => "JavaScript",
            Language::Jsx => "JSX",
            Language::Rust => "Rust",
            Language::Python => "Python",
            Language::Go => "Go",
        }
    }

    pub fn from_extension(ext: &str) -> (r: Option<Language>)
        ensures
            r == language_of_extension(ext@),
    {
        if str_eq(ext, "ts") || str_eq(ext, "mts") || str_eq(ext, "cts") {
            Some(Language::TypeScript)
        } else if str_eq(ext, "tsx") {
            Some(Language::Tsx)
        } else if str_eq(ext, "js") || str_eq(ext, "mjs") || str_eq(ext, "cjs") {
            Some(Language::JavaScript)
        } else if str_eq(ext, "jsx") {
            Some(Language::Jsx)
        } else if str_eq(ext, "rs") {
            Some(Language::Rust)
        } else if str_eq(ext, "py") || str_eq(ext, "pyi") {
            Some(Language::Python)
        } else if str_eq(ext, "go") {
            Some(Language::Go)
        } else {
            None
        }
    }

    /// Every language in `resolved()` has a resolver, and those are all of them.
    pub fn has_resolver(self) -> (r: bool)
        ensures
            r == seq![
                Language::TypeScript,
                Language::Tsx,
                Language::JavaScript,
                Language::Jsx,
                Language::Rust,
                Language::Python,
                Language::Go,
            ].contains(self),
    {
        let all = Language::resolved();
        let mut i: usize = 0;
        while i < all.len()
            invariant
                i <= all.len(),
                all@ == seq![
                    Language::TypeScript,
                    Language::Tsx,
                    Language::JavaScript,
                    Language::Jsx,
                    Language::Rust,
                    Language::Python,
                    Language::Go,
                ],
                forall|j: int| 0 <= j < i ==> all@[j] != self,
            decreases all.len() - i,
        {
            if all[i] == self {
                assert(all@[i as int] == self);
                return true;
            }
            i += 1;
        }
        false
    }
}

/// One scanned file.
#[derive(Debug, Clone)]
pub struct FileNode {
    pub id: FileId,
    pub path: String,
    pub module: ModuleId,
    pub language: Language,
    pub loc: u32,
    pub bytes: u64,
    pub content_hash: String,
}

/// What an edge between two files stands for.
#[derive(Debug, Clone, Copy, PartialEq, Eq, Structural)]
pub enum EdgeKind {
    Import,
    ViaBarrel,
    CoChange,
    Contains,
}

/// A directed edge between two files.
#[derive(Debug, Clone, Copy, PartialEq, Eq, Structural)]
pub struct Edge {
    pub from: FileId,
    pub to: FileId,
    pub kind: EdgeKind,
}

/// Why an import specifier did not become an edge.
#[derive(Debug, Clone, PartialEq, Eq)]
pub enum UnresolvedReason {
    External(String),
    NoSuchFile(String),
    UnmatchedAlias(String),
    DynamicSpecifier,
    ReExportChainTooDeep(String),
    NoResolverForLanguage(Language),
    ExcludedFromScan(String),
    FileNotInModuleTree,
    Asset(String),
}

/// The reasons with their texts as character sequences.
pub enum ReasonView {
    External(Seq<char>),
    NoSuchFile(Seq<char>),
    UnmatchedAlias(Seq<char>),
    DynamicSpecifier,
    ReExportChainTooDeep(Seq<char>),
    NoResolverForLanguage(Language),
    ExcludedFromScan(Seq<char>),
    FileNotInModuleTree,
    Asset(Seq<char>),
}

impl View for UnresolvedReason {
    type V = ReasonView;

    open spec fn view(&self) -> ReasonView {
        match self {
            UnresolvedReason::External(s) => ReasonView::External(s@),
            UnresolvedReason::NoSuchFile(s) => ReasonView::NoSuchFile(s@),
            UnresolvedReason::UnmatchedAlias(s) => ReasonView::UnmatchedAlias(s@),
            UnresolvedReason::DynamicSpecifier => ReasonView::DynamicSpecifier,
            UnresolvedReason::ReExportChainTooDeep(s) => ReasonView::ReExportChainTooDeep(s@),
            UnresolvedReason::NoResolverForLanguage(l) => ReasonView::NoResolverForLanguage(*l),
            UnresolvedReason::ExcludedFromScan(s) => ReasonView::ExcludedFromScan(s@),
            UnresolvedReason::FileNotInModuleTree => ReasonView::FileNotInModuleTree,
            UnresolvedReason::Asset(s) => ReasonView::Asset(s@),
        }
    }
}

/// A result with its error taken by its view.
pub open spec fn result_view<T>(r: Result<T, UnresolvedReason>) -> Result<T, ReasonView> {
    match r {
        Ok(v) => Ok(v),
        Err(e) => Err(e@),
    }
}

/// Whether an outcome is a real resolution failure: a package outside the
/// repository, an asset and an excluded file are not.
pub open spec fn is_failure_reason(r: UnresolvedReason) -> bool {
    !(r is External || r is Asset || r is ExcludedFromScan)
}

/// An import that did not resolve, with where it was written.
#[derive(Debug, Clone)]
pub struct UnresolvedImport {
    pub from: FileId,
    pub specifier: String,
    pub line: u32,
    pub reason: UnresolvedReason,
}

/// An import that resolved only when letter case was ignored.
#[derive(Debug, Clone, PartialEq, Eq)]
pub struct CaseMismatch {
    pub from: FileId,
    pub specifier: String,
    pub line: u32,
    pub actual: String,
}

/// An import the heuristics missed and a language server resolved.
#[derive(Debug, Clone, PartialEq, Eq)]
pub struct LspRepair {
    pub from: FileId,
    pub specifier: String,
    pub line: u32,
    pub to: FileId,
    pub server: String,
}

/// An import the heuristics and a language server resolved differently.
#[derive(Debug, Clone, PartialEq, Eq)]
pub struct LspDisagreement {
    pub from: FileId,
    pub specifier: String,
    pub line: u32,
    pub lsp_target: FileId,
    pub server: String,
}

/// The import statement an edge came from.
#[derive(Debug, Clone, Copy, PartialEq, Eq, Structural)]
pub struct EdgeSite {
    pub from: FileId,
    pub to: FileId,
    pub import: u32,
}

/// A path alias from a tsconfig that points nowhere or is never used.
#[derive(Debug, Clone, PartialEq, Eq)]
pub struct AliasAudit {
    pub pattern: String,
    pub targets: Vec<String>,
    pub source: String,
    pub used_by: u32,
    pub resolves: bool,
}

/// A directory grouping of files.
#[derive(Debug, Clone)]
pub struct ModuleNode {
    pub id: ModuleId,
    pub path: String,
    pub files: Vec<FileId>,
}

/// The whole repository map. `root` is the repository directory as text.
#[derive(Debug, Clone)]
pub struct Graph {
    pub root: String,
    pub files: Vec<FileNode>,
    pub modules: Vec<ModuleNode>,
    pub edges: Vec<Edge>,
    pub unresolved: Vec<UnresolvedImport>,
    pub case_mismatches: Vec<CaseMismatch>,
    pub lsp_repairs: Vec<LspRepair>,
    pub lsp_disagreements: Vec<LspDisagreement>,
    pub alias_audit: Vec<AliasAudit>,
    pub edge_sites: Vec<EdgeSite>,
}

/// How many of the unresolved imports are real failures.
pub open spec fn failure_count(u: Seq<UnresolvedImport>) -> nat
    decreases u.len(),
{
    if u.len() == 0 {
        0
    } else {
        failure_count(u.drop_last()) + if is_failure_reason(u.last().reason) { 1nat } else { 0nat }
    }
}

impl Graph {
    pub fn new() -> (g: Graph)
        ensures
            g.root@.len() == 0,
            g.files@.len() == 0,
            g.modules@.len() == 0,
            g.edges@.len() == 0,
            g.unresolved@.len() == 0,
            g.case_mismatches@.len() == 0,
            g.lsp_repairs@.len() == 0,
            g.lsp_disagreements@.len() == 0,
            g.alias_audit@.len() == 0,
            g.edge_sites@.len() == 0,
    {
        Graph {
            root: String::new(),
            files: Vec::new(),
            modules: Vec::new(),
            edges: Vec::new(),
            unresolved: Vec::new(),
            case_mismatches: Vec::new(),
            lsp_repairs: Vec::new(),
            lsp_disagreements: Vec::new(),
            alias_audit: Vec::new(),
            edge_sites: Vec::new(),
        }
    }

    pub fn file(&self, id: FileId) -> (r: Option<&FileNode>)
        ensures
            (id.0 < self.files@.len()) ==> r == Some(&self.files@[id.0 as int]),
            (id.0 >= self.files@.len()) ==> r is None,
    {
        let i = id.0 as usize;
        if i < self.files.len() {
            Some(&self.files[i])
        } else {
            None
        }
    }

    pub fn module(&self, id: ModuleId) -> (r: Option<&ModuleNode>)
        ensures
            (id.0 < self.modules@.len()) ==> r == Some(&self.modules@[id.0 as int]),
            (id.0 >= self.modules@.len()) ==> r is None,
    {
        let i = id.0 as usize;
        if i < self.modules.len() {
            Some(&self.modules[i])
        } else {
            None
        }
    }

    pub fn unresolved_failure_count(&self) -> (n: usize)
        ensures
            n == failure_count(self.unresolved@),
    {
        let mut n: usize = 0;
        let mut i: usize = 0;
        while i < self.unresolved.len()
            invariant
                i <= self.unresolved@.len(),
                n == failure_count(self.unresolved@.take(i as int)),
                n <= i,
            decreases self.unresolved@.len() - i,
        {
            assert(self.unresolved@.take(i + 1).drop_last() == self.unresolved@.take(i as int));
            if is_failure(&self.unresolved[i].reason) {
                n += 1;
            }
            i += 1;
        }
        assert(self.unresolved@.take(i as int) == self.unresolved@);
        n
    }
}

/// Whether an outcome counts as a resolution failure.
pub fn is_failure(reason: &UnresolvedReason) -> (r: bool)
    ensures
        r == is_failure_reason(*reason),
{
    match reason {
        UnresolvedReason::External(_) => false,
        UnresolvedReason::Asset(_) => false,
        UnresolvedReason::ExcludedFromScan(_) => false,
        _ => true,
    }
}

/// The one-line explanation shown for an outcome.
pub open spec fn describe_reason(r: UnresolvedReason) -> Seq<char> {
    match r {
        UnresolvedReason::External(name) => "external package: "@ + name@,
        UnresolvedReason::NoSuchFile(p) => "no such file: "@ + p@,
        UnresolvedReason::UnmatchedAlias(a) => "alias matched nothing: "@ + a@,
        UnresolvedReason::DynamicSpecifier => "computed at runtime"@,
        UnresolvedReason::ReExportChainTooDeep(p) => "re-export chain too deep: "@ + p@,
        UnresolvedReason::NoResolverForLanguage(l) => "no resolver for "@ + language_label(l),
        UnresolvedReason::ExcludedFromScan(p) => "excluded from the scan: "@ + p@,
        UnresolvedReason::FileNotInModuleTree => "this file is not reachable from any crate root"@,
        UnresolvedReason::Asset(p) => "asset: "@ + p@,
    }
}

/// A sentence describing why an import did not resolve.
pub fn describe(reason: &UnresolvedReason) -> (s: String)
    ensures
        s@ == describe_reason(*reason),
{
    match reason {
        UnresolvedReason::External(name) => concat("external package: ", name.as_str()),
        UnresolvedReason::NoSuchFile(p) => concat("no such file: ", p.as_str()),
        UnresolvedReason::UnmatchedAlias(a) => concat("alias matched nothing: ", a.as_str()),
        UnresolvedReason::DynamicSpecifier => owned("computed at runtime"),
        UnresolvedReason::ReExportChainTooDeep(p) => concat("re-export chain too deep: ", p.as_str()),
        UnresolvedReason::NoResolverForLanguage(l) => concat("no resolver for ", l.label()),
        UnresolvedReason::ExcludedFromScan(p) => concat("excluded from the scan: ", p.as_str()),
        UnresolvedReason::FileNotInModuleTree => owned("this file is not reachable from any crate root"),
        UnresolvedReason::Asset(p) => concat("asset: ", p.as_str()),
    }
}

} // verus!
