//! What the interface shows about a repository once it is opened: its
//! root as the user would write it, its name, where git stands, and which
//! configured rules are invalid.
use vstd::prelude::*;
use crate::config::{declared_names, invalid_of, rule_strings, rule_text, rules_of, strs, ZatlasConfig};
use crate::text::{chars_of, is_prefix, string_of};

verus! {

/// A repository as the interface shows it.
#[derive(Debug, Clone)]
pub struct RepoInfo {
    pub root: String,
    pub name: String,
    pub branch: Option<String>,
    pub head: Option<String>,
    pub is_git: bool,
    pub has_config: bool,
    pub invalid_rules: Vec<String>,
}

/// The prefix Windows puts before a verbatim path.
pub open spec fn verbatim_prefix() -> Seq<char> {
    seq!['\\', '\\', '?', '\\']
}

/// A path without Windows' verbatim prefix, unless what follows it is a
/// network share (`UNC\`), which cannot be written without it.
pub open spec fn simplified(path: Seq<char>) -> Seq<char> {
    if is_prefix(verbatim_prefix(), path) && !is_prefix(seq!['U', 'N', 'C', '\\'], path.skip(4)) {
        path.skip(4)
    } else {
        path
    }
}

/// A path as the user would write it: `\\?\C:\x` becomes `C:\x`; a
/// verbatim network share and every other path stay as they are.
pub fn simplify(path: &str) -> (r: String)
    ensures
        r@ == simplified(path@),
{
    let cs = chars_of(path);
    let n = cs.len();
    let prefix = ['\\', '\\', '?', '\\'];
    if crate::text::starts_with(cs.as_slice(), &prefix) {
        assert(prefix@ =~= verbatim_prefix());
        let rest = vstd::slice::slice_subrange(cs.as_slice(), 4, n);
        let unc = ['U', 'N', 'C', '\\'];
        if !crate::text::starts_with(rest, &unc) {
            assert(rest@ =~= path@.skip(4));
            assert(unc@ =~= seq!['U', 'N', 'C', '\\']);
            return string_of(rest);
        }
        assert(rest@ =~= path@.skip(4));
        assert(unc@ =~= seq!['U', 'N', 'C', '\\']);
    } else {
        assert(prefix@ =~= verbatim_prefix());
    }
    crate::text::owned(path)
}

/// The last component of a path, or the whole path when it ends in a
/// separator or is one.
pub open spec fn name_of(root: Seq<char>, sep: char) -> Seq<char> {
    let i = last_sep(root, sep);
    if i < 0 || i + 1 == root.len() { root } else { root.skip(i + 1) }
}

/// Where the last `/` or `sep` of `s` is, or -1.
pub open spec fn last_sep(s: Seq<char>, sep: char) -> int
    decreases s.len(),
{
    if s.len() == 0 {
        -1
    } else if s.last() == '/' || s.last() == sep {
        s.len() - 1
    } else {
        last_sep(s.drop_last(), sep)
    }
}

fn find_last_sep(s: &[char], sep: char) -> (r: Option<usize>)
    ensures
        match r {
            Some(i) => last_sep(s@, sep) == i as int && i < s@.len(),
            None => last_sep(s@, sep) == -1,
        },
{
    let mut k = s.len();
    assert(s@.take(k as int) =~= s@);
    while k > 0
        invariant
            k <= s@.len(),
            last_sep(s@, sep) == last_sep(s@.take(k as int), sep),
        decreases k,
    {
        assert(s@.take(k as int).drop_last() =~= s@.take(k - 1));
        if s[k - 1] == '/' || s[k - 1] == sep {
            return Some(k - 1);
        }
        k -= 1;
    }
    None
}

/// What the interface shows of a repository opened at `root` (a
/// canonical path): the root without a verbatim prefix, its last component
/// as its name, git's branch and commit where it is a repository, whether
/// a configuration file exists, and the configuration's invalid rules.
pub fn describe(root: &str, has_config: bool, git: Option<(Option<String>, Option<String>)>, config: &ZatlasConfig) -> (r: RepoInfo)
    ensures
        r.root@ == simplified(root@),
        exists|sep: char| (sep == '/' || sep == '\\') && r.name@ == name_of(simplified(root@), sep),
        r.is_git == git is Some,
        r.branch == match git { Some(g) => g.0, None => None },
        r.head == match git { Some(g) => g.1, None => None },
        r.has_config == has_config,
        strs(r.invalid_rules@) == invalid_of(
            rule_strings(*config),
            rules_of(rule_strings(*config), declared_names(config.layers@)).map_values(|p: (Seq<char>, Seq<char>)| rule_text(p)),
        ),
{
    let root_text = simplify(root);
    let sep = crate::lsp::uri::main_separator();
    let cs = chars_of(root_text.as_str());
    let n = cs.len();
    let name = match find_last_sep(cs.as_slice(), sep) {
        Some(i) => if i + 1 == n {
            string_of(cs.as_slice())
        } else {
            let rest = vstd::slice::slice_subrange(cs.as_slice(), i + 1, n);
            assert(rest@ =~= cs@.skip(i + 1));
            string_of(rest)
        },
        None => string_of(cs.as_slice()),
    };
    assert(name@ == name_of(root_text@, sep));
    let (is_git, branch, head) = match git {
        Some((b, h)) => (true, b, h),
        None => (false, None, None),
    };
    RepoInfo {
        root: root_text,
        name,
        branch,
        head,
        is_git,
        has_config,
        invalid_rules: config.invalid_rules(),
    }
}

} // verus!
