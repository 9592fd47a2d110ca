//! The language servers the scan knows how to start.
use vstd::prelude::*;
use crate::model::Language;
use crate::text::str_eq;

verus! {

/// A language server: its id (as configuration names it), label, program,
/// arguments, the languages it handles, and the files that mark a project it
/// serves (none: any).
#[derive(Debug, Clone)]
pub struct ServerSpec {
    pub id: &'static str,
    pub label: &'static str,
    pub command: &'static str,
    pub args: Vec<&'static str>,
    pub languages: Vec<Language>,
    pub root_markers: Vec<&'static str>,
}

impl ServerSpec {
    /// Whether the server handles `language`.
    pub fn handles(&self, language: Language) -> (r: bool)
        ensures
            r == self.languages@.contains(language),
    {
        let mut i: usize = 0;
        while i < self.languages.len()
            invariant
                i <= self.languages@.len(),
                forall|k: int| 0 <= k < i ==> self.languages@[k] != language,
            decreases self.languages@.len() - i,
        {
            if self.languages[i] == language {
                return true;
            }
            i += 1;
        }
        false
    }
}

/// The language id a server expects for a language.
pub open spec fn language_id_of(language: Language) -> Seq<char> {
    match language {
        Language::TypeScript => "typescript"@,
        Language::Tsx => "typescriptreact"@,
        Language::JavaScript => "javascript"@,
        Language::Jsx => "javascriptreact"@,
        Language::Rust => "rust"@,
        Language::Python => "python"@,
        Language::Go => "go"@,
    }
}

/// The LSP language id of a language.
pub fn language_id(language: Language) -> (r: &'static str)
    ensures
        r@ == language_id_of(language),
{
    match language {
        Language::TypeScript => "typescript",
        Language::Tsx => "typescriptreact",
        Language::JavaScript => "javascript",
        Language::Jsx => "javascriptreact",
        Language::Rust => "rust",
        Language::Python => "python",
        Language::Go => "go",
    }
}

/// A server as text: id, label, command, arguments, languages, markers.
pub open spec fn spec_view(s: ServerSpec) -> (Seq<char>, Seq<char>, Seq<char>, Seq<Seq<char>>, Seq<Language>, Seq<Seq<char>>) {
    (s.id@, s.label@, s.command@, s.args@.map_values(|a: &str| a@), s.languages@, s.root_markers@.map_values(|m: &str| m@))
}

/// The files that mark a Python project.
pub open spec fn python_markers() -> Seq<Seq<char>> {
    seq!["pyproject.toml"@, "setup.py"@, "setup.cfg"@, "requirements.txt"@]
}

/// The servers known, in the order they are tried.
pub open spec fn known_table() -> Seq<(Seq<char>, Seq<char>, Seq<char>, Seq<Seq<char>>, Seq<Language>, Seq<Seq<char>>)> {
    seq![
        ("rust-analyzer"@, "rust-analyzer"@, "rust-analyzer"@, Seq::empty(), seq![Language::Rust], seq!["Cargo.toml"@]),
        ("typescript-language-server"@, "TypeScript Language Server"@, "typescript-language-server"@, seq!["--stdio"@],
            seq![Language::TypeScript, Language::Tsx, Language::JavaScript, Language::Jsx],
            seq!["package.json"@, "tsconfig.json"@, "jsconfig.json"@]),
        ("gopls"@, "gopls"@, "gopls"@, Seq::empty(), seq![Language::Go], seq!["go.mod"@]),
        ("pyright"@, "Pyright"@, "pyright-langserver"@, seq!["--stdio"@], seq![Language::Python], python_markers()),
        ("basedpyright"@, "basedpyright"@, "basedpyright-langserver"@, seq!["--stdio"@], seq![Language::Python], python_markers()),
        ("pylsp"@, "python-lsp-server"@, "pylsp"@, Seq::empty(), seq![Language::Python], python_markers())
    ]
}

fn python_marker_list() -> (v: Vec<&'static str>)
    ensures
        v@.map_values(|m: &str| m@) == python_markers(),
{
    let v = vec!["pyproject.toml", "setup.py", "setup.cfg", "requirements.txt"];
    assert(v@.map_values(|m: &str| m@) =~= python_markers());
    v
}

fn no_args() -> (v: Vec<&'static str>)
    ensures
        v@.map_values(|a: &str| a@) == Seq::<Seq<char>>::empty(),
{
    let v: Vec<&'static str> = Vec::new();
    assert(v@.map_values(|a: &str| a@) =~= Seq::<Seq<char>>::empty());
    v
}

fn one_str(a: &'static str) -> (v: Vec<&'static str>)
    ensures
        v@.map_values(|x: &str| x@) == seq![a@],
{
    let mut v: Vec<&'static str> = Vec::new();
    v.push(a);
    assert(v@.map_values(|x: &str| x@) =~= seq![a@]);
    v
}

fn js_markers() -> (v: Vec<&'static str>)
    ensures
        v@.map_values(|m: &str| m@) == seq!["package.json"@, "tsconfig.json"@, "jsconfig.json"@],
{
    let v = vec!["package.json", "tsconfig.json", "jsconfig.json"];
    assert(v@.map_values(|m: &str| m@) =~= seq!["package.json"@, "tsconfig.json"@, "jsconfig.json"@]);
    v
}

fn spec_at(k: usize) -> (s: ServerSpec)
    requires
        k < 6,
    ensures
        spec_view(s) == known_table()[k as int],
{

    if k == 0 {
        let s = ServerSpec { id: "rust-analyzer", label: "rust-analyzer", command: "rust-analyzer", args: no_args(), languages: vec![Language::Rust], root_markers: one_str("Cargo.toml") };
        assert(s.languages@ =~= seq![Language::Rust]);
        s
    } else if k == 1 {
        let s = ServerSpec {
            id: "typescript-language-server",
            label: "TypeScript Language Server",
            command: "typescript-language-server",
            args: one_str("--stdio"),
            languages: vec![Language::TypeScript, Language::Tsx, Language::JavaScript, Language::Jsx],
            root_markers: js_markers(),
        };
        assert(s.languages@ =~= seq![Language::TypeScript, Language::Tsx, Language::JavaScript, Language::Jsx]);
        s
    } else if k == 2 {
        let s = ServerSpec { id: "gopls", label: "gopls", command: "gopls", args: no_args(), languages: vec![Language::Go], root_markers: one_str("go.mod") };
        assert(s.languages@ =~= seq![Language::Go]);
        s
    } else if k == 3 {
        let s = ServerSpec { id: "pyright", label: "Pyright", command: "pyright-langserver", args: one_str("--stdio"), languages: vec![Language::Python], root_markers: python_marker_list() };
        assert(s.languages@ =~= seq![Language::Python]);
        s
    } else if k == 4 {
        let s = ServerSpec { id: "basedpyright", label: "basedpyright", command: "basedpyright-langserver", args: one_str("--stdio"), languages: vec![Language::Python], root_markers: python_marker_list() };
        assert(s.languages@ =~= seq![Language::Python]);
        s
    } else {
        let s = ServerSpec { id: "pylsp", label: "python-lsp-server", command: "pylsp", args: no_args(), languages: vec![Language::Python], root_markers: python_marker_list() };
        assert(s.languages@ =~= seq![Language::Python]);
        s
    }
}

/// The servers the scan knows, in the order they are tried.
pub fn known_servers() -> (r: Vec<ServerSpec>)
    ensures
        r@.len() == known_table().len(),
        forall|k: int| 0 <= k < r@.len() ==> spec_view(#[trigger] r@[k]) == known_table()[k],
{
    let mut v: Vec<ServerSpec> = Vec::new();
    let mut k: usize = 0;
    while k < 6
        invariant
            k <= 6,
            v@.len() == k,
            known_table().len() == 6,
            forall|j: int| 0 <= j < k ==> spec_view(#[trigger] v@[j]) == known_table()[j],
        decreases 6 - k,
    {
        v.push(spec_at(k));
        k += 1;
    }
    v
}

/// Whether configuration lets the server with `id` start: an empty list lets
/// every server start.
pub open spec fn server_wanted(id: Seq<char>, wanted: Seq<Seq<char>>) -> bool {
    wanted.len() == 0 || wanted.contains(id)
}

/// Whether two lists of languages have one in common.
pub open spec fn shares_language(a: Seq<Language>, b: Seq<Language>) -> bool {
    exists|l: Language| a.contains(l) && b.contains(l)
}

/// The servers chosen among the first `n` known ones, each as its place in
/// the table and its program: a server starts when configuration wants it, it
/// handles a language the scan found, one of its marker files is present (or
/// it has none), no server chosen before it handles one of its languages, and
/// its program was found.
pub open spec fn discovered_upto(
    languages: Seq<Language>,
    wanted: Seq<Seq<char>>,
    markers_found: Seq<bool>,
    executables: Seq<Option<Seq<char>>>,
    n: nat,
) -> Seq<(int, Seq<char>)>
    decreases n,
{
    if n == 0 {
        Seq::empty()
    } else {
        let prev = discovered_upto(languages, wanted, markers_found, executables, (n - 1) as nat);
        let k = n - 1;
        let t = known_table()[k];
        if server_wanted(t.0, wanted) && shares_language(t.4, languages) && (t.5.len() == 0
            || markers_found[k]) && !(exists|j: int|
            0 <= j < prev.len() && #[trigger] shares_language(known_table()[prev[j].0].4, t.4))
            && executables[k] is Some {
            prev.push((k, executables[k]->0))
        } else {
            prev
        }
    }
}

/// A server found for the repository and the program that runs it.
#[derive(Debug, Clone)]
pub struct Discovered {
    pub spec: ServerSpec,
    pub executable: String,
}

fn handles_any(spec: &ServerSpec, languages: &[Language]) -> (r: bool)
    ensures
        r == shares_language(spec.languages@, languages@),
{
    let mut i: usize = 0;
    while i < languages.len()
        invariant
            i <= languages@.len(),
            forall|k: int| 0 <= k < i ==> !spec.languages@.contains(#[trigger] languages@[k]),
        decreases languages@.len() - i,
    {
        if spec.handles(languages[i]) {
            assert(spec.languages@.contains(languages@[i as int]) && languages@.contains(languages@[i as int]));
            return true;
        }
        i += 1;
    }
    proof {
        if shares_language(spec.languages@, languages@) {
            let l = choose|l: Language| spec.languages@.contains(l) && languages@.contains(l);
            let k = choose|k: int| 0 <= k < languages@.len() && languages@[k] == l;
            assert(!spec.languages@.contains(languages@[k]));
        }
    }
    false
}

fn is_wanted(id: &str, wanted: &[String]) -> (r: bool)
    ensures
        r == server_wanted(id@, wanted@.map_values(|w: String| w@)),
{
    let ghost ws = wanted@.map_values(|w: String| w@);
    if wanted.len() == 0 {
        return true;
    }
    let mut i: usize = 0;
    while i < wanted.len()
        invariant
            i <= wanted@.len(),
            ws == wanted@.map_values(|w: String| w@),
            forall|k: int| 0 <= k < i ==> ws[k] != id@,
        decreases wanted@.len() - i,
    {
        if str_eq(wanted[i].as_str(), id) {
            assert(ws[i as int] == id@);
            return true;
        }
        i += 1;
    }
    false
}

fn already_served(spec: &ServerSpec, chosen: &Vec<Discovered>) -> (r: bool)
    ensures
        r == exists|i: int| 0 <= i < chosen@.len() && shares_language(#[trigger] chosen@[i].spec.languages@, spec.languages@),
{
    let mut j: usize = 0;
    while j < chosen.len()
        invariant
            j <= chosen@.len(),
            forall|i: int| 0 <= i < j ==> !shares_language(#[trigger] chosen@[i].spec.languages@, spec.languages@),
        decreases chosen@.len() - j,
    {
        if handles_any(spec, chosen[j].spec.languages.as_slice()) {
            proof {
                let l = choose|l: Language| spec.languages@.contains(l) && chosen@[j as int].spec.languages@.contains(l);
                assert(shares_language(chosen@[j as int].spec.languages@, spec.languages@));
            }
            return true;
        }
        proof {
            if shares_language(chosen@[j as int].spec.languages@, spec.languages@) {
                let l = choose|l: Language| chosen@[j as int].spec.languages@.contains(l) && spec.languages@.contains(l);
                assert(shares_language(spec.languages@, chosen@[j as int].spec.languages@));
            }
        }
        j += 1;
    }
    false
}

/// The language servers to start for a repository, one per language at most,
/// in the order of the known table.
///
/// `markers_found[k]` says whether one of the marker files of the `k`th known
/// server is present at the root, `executables[k]` where its program was
/// found on the search path, if it was; `wanted` names the servers that
/// configuration allows (none: all of them).
#[verifier::spinoff_prover]
pub fn discover(
    languages: &[Language],
    wanted: &[String],
    markers_found: &[bool],
    executables: &[Option<String>],
) -> (r: Vec<Discovered>)
    requires
        markers_found@.len() == known_table().len(),
        executables@.len() == known_table().len(),
    ensures
        ({
            let d = discovered_upto(
                languages@,
                wanted@.map_values(|w: String| w@),
                markers_found@,
                executables@.map_values(|e: Option<String>| match e { Some(x) => Some(x@), None => None }),
                known_table().len(),
            );
            &&& r@.len() == d.len()
            &&& forall|j: int| 0 <= j < r@.len() ==> spec_view(#[trigger] r@[j].spec) == known_table()[d[j].0]
                && r@[j].executable@ == d[j].1
        }),
{
    let ghost ws = wanted@.map_values(|w: String| w@);
    let ghost es = executables@.map_values(|e: Option<String>| match e { Some(x) => Some(x@), None => None });
    let mut out: Vec<Discovered> = Vec::new();
    let mut k: usize = 0;
    while k < 6
        invariant
            k <= 6,
            known_table().len() == 6,
            markers_found@.len() == 6,
            executables@.len() == 6,
            ws == wanted@.map_values(|w: String| w@),
            es == executables@.map_values(|e: Option<String>| match e { Some(x) => Some(x@), None => None }),
            ({
                let d = discovered_upto(languages@, ws, markers_found@, es, k as nat);
                &&& out@.len() == d.len()
                &&& forall|j: int| 0 <= j < out@.len() ==> spec_view(#[trigger] out@[j].spec) == known_table()[d[j].0]
                    && out@[j].executable@ == d[j].1
            }),
        decreases 6 - k,
    {
        let ghost prev = discovered_upto(languages@, ws, markers_found@, es, k as nat);
        let ghost t = known_table()[k as int];
        let spec = spec_at(k);
        let ghost cond = server_wanted(t.0, ws) && shares_language(t.4, languages@) && (t.5.len() == 0
            || markers_found@[k as int]) && !(exists|j: int|
            0 <= j < prev.len() && #[trigger] shares_language(known_table()[prev[j].0].4, t.4));
        assert(spec.root_markers@.len() == t.5.len());
        let mut keep = is_wanted(spec.id, wanted) && handles_any(&spec, languages)
            && (spec.root_markers.len() == 0 || markers_found[k]);
        if keep && already_served(&spec, &out) {
            proof {
                let i = choose|i: int| 0 <= i < out@.len() && shares_language(#[trigger] out@[i].spec.languages@, spec.languages@);
                assert(spec_view(out@[i].spec) == known_table()[prev[i].0]);
                assert(shares_language(known_table()[prev[i].0].4, t.4));
            }
            keep = false;
        } else if keep {
            assert forall|i: int| 0 <= i < prev.len() implies !#[trigger] shares_language(known_table()[prev[i].0].4, t.4) by {
                assert(spec_view(out@[i].spec) == known_table()[prev[i].0]);
                assert(!shares_language(out@[i].spec.languages@, spec.languages@));
            }
        }
        assert(keep == cond);
        let ghost old_out = out@;
        let ghost next = discovered_upto(languages@, ws, markers_found@, es, (k + 1) as nat);
        assert(next == if cond && es[k as int] is Some { prev.push((k as int, es[k as int]->0)) } else { prev });
        if keep {
            match &executables[k] {
                Some(e) => {
                    assert(es[k as int] == Some(e@));
                    let x = e.clone();
                    let ghost sv = spec_view(spec);
                    out.push(Discovered { spec, executable: x });
                    assert forall|j: int| 0 <= j < out@.len() implies spec_view(#[trigger] out@[j].spec) == known_table()[next[j].0]
                        && out@[j].executable@ == next[j].1 by {
                        if j < old_out.len() {
                            assert(out@[j] == old_out[j]);
                        }
                    }
                },
                None => {
                    assert(es[k as int] is None);
                },
            }
        }
        k += 1;
    }
    out
}

} // verus!
