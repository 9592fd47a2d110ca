//! Which changed paths are worth a rescan.
use vstd::prelude::*;
use crate::model::{language_of_extension, Language};
use crate::text::{chars_eq, chars_of, ends_with, is_prefix, is_suffix, last_index_of, replace_char, rfind_char, split, split_chars, starts_with, string_of};
use crate::walk::{is_manifest, manifest_name};

verus! {

/// How long the filesystem must stay quiet, in milliseconds, before a batch
/// of changes is reported.
pub const SETTLE_MS: u64 = 400;

/// Directories whose contents never matter to the graph.
pub open spec fn skip_dirs() -> Seq<Seq<char>> {
    seq![".git"@, ".zatlas"@, "node_modules"@, "target"@, "dist"@, "build"@, ".next"@, ".turbo"@,
        "__pycache__"@, ".venv"@, "venv"@, "coverage"@]
}

fn skip_list() -> (v: Vec<&'static str>)
    ensures
        v@.map_values(|s: &str| s@) == skip_dirs(),
{
    let v = vec![".git", ".zatlas", "node_modules", "target", "dist", "build", ".next", ".turbo",
        "__pycache__", ".venv", "venv", "coverage"];
    assert(v@.map_values(|s: &str| s@) =~= skip_dirs());
    v
}

/// A path's pieces, with `\` read as `/`.
pub open spec fn path_pieces(p: Seq<char>) -> Seq<Seq<char>> {
    split(p.map_values(|c: char| if c == '\\' { '/' } else { c }), '/')
}

/// The file name among a path's pieces: the last one that is neither empty
/// nor `.`, unless that one is `..`.
pub open spec fn file_name_of(pieces: Seq<Seq<char>>) -> Option<Seq<char>>
    decreases pieces.len(),
{
    if pieces.len() == 0 {
        None
    } else if pieces.last().len() == 0 || pieces.last() == "."@ {
        file_name_of(pieces.drop_last())
    } else if pieces.last() == ".."@ {
        None
    } else {
        Some(pieces.last())
    }
}

/// The extension of a file name: what follows its last `.`, unless that dot
/// is the first character.
pub open spec fn extension_of(name: Seq<char>) -> Option<Seq<char>> {
    match last_index_of(name, '.') {
        Some(i) => if i > 0 { Some(name.subrange(i + 1, name.len() as int)) } else { None },
        None => None,
    }
}

/// Names editors leave behind while saving.
pub open spec fn scratch_name(n: Seq<char>) -> bool {
    is_suffix("~"@, n) || is_prefix(".#"@, n) || is_suffix(".tmp"@, n)
}

/// Whether a change to `p` can change the graph: nothing under a skipped
/// directory, no editor scratch file, and otherwise a manifest or a file
/// whose extension belongs to a language.
pub open spec fn interesting(p: Seq<char>) -> bool {
    let pieces = path_pieces(p);
    &&& !(exists|k: int| 0 <= k < pieces.len() && skip_dirs().contains(#[trigger] pieces[k]))
    &&& match file_name_of(pieces) {
        Some(n) => !scratch_name(n) && (manifest_name(n) || match extension_of(n) {
            Some(e) => language_of_extension(e) is Some,
            None => false,
        }),
        None => false,
    }
}

fn is_skip_dir(piece: &[char], skips: &Vec<&'static str>) -> (r: bool)
    requires
        skips@.map_values(|s: &str| s@) == skip_dirs(),
    ensures
        r == skip_dirs().contains(piece@),
{
    let ghost sd = skip_dirs();
    let mut i: usize = 0;
    while i < skips.len()
        invariant
            i <= skips@.len(),
            skips@.map_values(|s: &str| s@) == sd,
            sd == skip_dirs(),
            forall|k: int| 0 <= k < i ==> sd[k] != piece@,
        decreases skips@.len() - i,
    {
        let name = chars_of(skips[i]);
        assert(sd[i as int] == skips@[i as int]@);
        if chars_eq(piece, name.as_slice()) {
            return true;
        }
        i += 1;
    }
    false
}

fn file_name_in(pieces: &Vec<Vec<char>>) -> (r: Option<usize>)
    ensures
        match r {
            Some(i) => i < pieces@.len() && file_name_of(pieces@.map_values(|p: Vec<char>| p@)) == Some(pieces@[i as int]@),
            None => file_name_of(pieces@.map_values(|p: Vec<char>| p@)) is None,
        },
{
    let ghost ps = pieces@.map_values(|p: Vec<char>| p@);
    let mut n = pieces.len();
    assert(ps.take(n as int) == ps);
    proof { reveal_strlit("."); reveal_strlit(".."); }
    while n > 0
        invariant
            n <= pieces@.len(),
            ps == pieces@.map_values(|p: Vec<char>| p@),
            file_name_of(ps) == file_name_of(ps.take(n as int)),
            "."@ == seq!['.'],
            ".."@ == seq!['.', '.'],
        decreases n,
    {
        let last = &pieces[n - 1];
        assert(ps.take(n as int).last() == last@);
        assert(ps.take(n as int).drop_last() == ps.take(n - 1));
        let dot = last.len() == 1 && last[0] == '.';
        let dots = last.len() == 2 && last[0] == '.' && last[1] == '.';
        proof {
            if last@.len() == 1 && last@[0] == '.' { assert(last@ =~= "."@); }
            if last@.len() == 2 && last@[0] == '.' && last@[1] == '.' { assert(last@ =~= ".."@); }
        }
        if last.len() == 0 || dot {
            n -= 1;
        } else if dots {
            return None;
        } else {
            return Some(n - 1);
        }
    }
    assert(ps.take(0) =~= Seq::<Seq<char>>::empty());
    None
}

fn has_language_extension(name: &[char]) -> (r: bool)
    ensures
        r == match extension_of(name@) {
            Some(e) => language_of_extension(e) is Some,
            None => false,
        },
{
    match rfind_char(name, '.') {
        Some(i) => {
            proof {
                crate::text::lemma_last_index_of(name@, '.');
                assert(last_index_of(name@, '.') == Some(i as int));
            }
            let n = name.len();
            assert(i < n);
            if i == 0 {
                return false;
            }
            let ext = vstd::slice::slice_subrange(name, i + 1, n);
            let text = string_of(ext);
            Language::from_extension(text.as_str()).is_some()
        },
        None => false,
    }
}

/// Whether a change to `path` is worth a rescan.
pub fn is_interesting(path: &str) -> (r: bool)
    ensures
        r == interesting(path@),
{
    let raw = chars_of(path);
    let norm = replace_char(raw.as_slice(), '\\', '/');
    let pieces = split_chars(norm.as_slice(), '/');
    let ghost ps = path_pieces(path@);
    assert(pieces@.map_values(|p: Vec<char>| p@) =~= ps);
    let skips = skip_list();
    let mut i: usize = 0;
    while i < pieces.len()
        invariant
            i <= pieces@.len(),
            pieces@.map_values(|p: Vec<char>| p@) == ps,
            ps == path_pieces(path@),
            skips@.map_values(|s: &str| s@) == skip_dirs(),
            forall|k: int| 0 <= k < i ==> !skip_dirs().contains(#[trigger] ps[k]),
        decreases pieces@.len() - i,
    {
        assert(ps[i as int] == pieces@[i as int]@);
        if is_skip_dir(pieces[i].as_slice(), &skips) {
            return false;
        }
        i += 1;
    }
    match file_name_in(&pieces) {
        Some(k) => {
            let name = pieces[k].as_slice();
            let tilde = chars_of("~");
            let hash = chars_of(".#");
            let tmp = chars_of(".tmp");
            if ends_with(name, tilde.as_slice()) || starts_with(name, hash.as_slice()) || ends_with(name, tmp.as_slice()) {
                return false;
            }
            let text = string_of(name);
            if is_manifest(text.as_str()) {
                return true;
            }
            has_language_extension(name)
        },
        None => false,
    }
}

} // verus!
