//! Turning a repository-relative path (always `/`-separated) into a path on
//! this platform.
use vstd::prelude::*;
use crate::lsp::uri::main_separator;
use crate::text::{split, split_chars, string_of, chars_of};

verus! {

/// `acc` with one more component: nothing for an empty or `.` segment, the
/// segment alone after an empty path, and otherwise the segment after a
/// separator unless `acc` already ends with one.
pub open spec fn push_segment(acc: Seq<char>, seg: Seq<char>, sep: char) -> Seq<char> {
    if seg.len() == 0 || seg == "."@ {
        acc
    } else if acc.len() == 0 || acc.last() == '/' || acc.last() == sep {
        acc + seg
    } else {
        acc.push(sep) + seg
    }
}

/// `root` with each of `segs` pushed in turn.
pub open spec fn joined_path(root: Seq<char>, segs: Seq<Seq<char>>, sep: char) -> Seq<char>
    decreases segs.len(),
{
    if segs.len() == 0 {
        root
    } else {
        push_segment(joined_path(root, segs.drop_last(), sep), segs.last(), sep)
    }
}

/// `root` joined with the `/`-separated relative path `rel`, one component at
/// a time, skipping empty and `.` components, with `sep` between them.
pub open spec fn rel_joined(root: Seq<char>, rel: Seq<char>, sep: char) -> Seq<char> {
    joined_path(root, split(rel, '/'), sep)
}

/// The path of `rel` under `root`, written with this platform's separator.
pub fn rel_to_path(root: &str, rel: &str) -> (r: String)
    ensures
        exists|sep: char| (sep == '/' || sep == '\\') && r@ == rel_joined(root@, rel@, sep),
{
    let sep = main_separator();
    let rel_chars = chars_of(rel);
    let segs = split_chars(rel_chars.as_slice(), '/');
    let ghost ss = split(rel@, '/');
    let mut out = chars_of(root);
    let mut i: usize = 0;
    while i < segs.len()
        invariant
            i <= segs@.len(),
            segs@.len() == ss.len(),
            forall|k: int| 0 <= k < segs@.len() ==> #[trigger] segs@[k]@ == ss[k],
            out@ == joined_path(root@, ss.take(i as int), sep),
        decreases segs@.len() - i,
    {
        assert(ss.take(i + 1).drop_last() == ss.take(i as int));
        let seg = &segs[i];
        let skip = seg.len() == 0 || (seg.len() == 1 && seg[0] == '.');
        proof {
            if seg@.len() == 1 && seg@[0] == '.' {
                assert(seg@ =~= "."@) by { reveal_strlit("."); }
            }
            if seg@ == "."@ {
                reveal_strlit(".");
            }
        }
        if !skip {
            let n = out.len();
            if n > 0 && out[n - 1] != '/' && out[n - 1] != sep {
                out.push(sep);
            }
            let mut j: usize = 0;
            let ghost before = out@;
            while j < seg.len()
                invariant
                    j <= seg@.len(),
                    out@ == before + seg@.take(j as int),
                decreases seg@.len() - j,
            {
                out.push(seg[j]);
                j += 1;
                assert(seg@.take(j as int) == seg@.take(j - 1).push(seg@[j - 1]));
            }
            assert(seg@.take(j as int) == seg@);
        }
        i += 1;
    }
    assert(ss.take(segs@.len() as int) == ss);
    let r = string_of(out.as_slice());
    assert(r@ == rel_joined(root@, rel@, sep));
    r
}

} // verus!
