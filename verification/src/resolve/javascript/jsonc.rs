//! JSON with comments, as tsconfig files are written, read by bytes.
use vstd::prelude::*;
use vstd::utf8::{
    decode_utf8, encode_utf8, is_char_boundary, is_continuation_byte, valid_utf8,
};
use crate::text::{first_some, lemma_first_some_all, lemma_first_some_prefix, lemma_first_some_step};

verus! {

/// The index of the first newline at or after `i` (or the end).
pub open spec fn line_end(b: Seq<u8>, i: int) -> int
    decreases b.len() - i,
{
    if i >= b.len() || b[i] == 10 {
        i
    } else {
        line_end(b, i + 1)
    }
}

/// The index of the first `*/` at or after `j`, or of the last byte when none.
pub open spec fn block_close(b: Seq<u8>, j: int) -> int
    decreases b.len() - j,
{
    if j + 1 >= b.len() || (b[j] == 42 && b[j + 1] == 47) {
        j
    } else {
        block_close(b, j + 1)
    }
}

pub proof fn lemma_line_end(b: Seq<u8>, i: int)
    ensures
        line_end(b, i) >= i,
        i < b.len() ==> line_end(b, i) <= b.len(),
    decreases b.len() - i,
{
    if !(i >= b.len() || b[i] == 10) {
        lemma_line_end(b, i + 1);
    }
}

pub proof fn lemma_block_close(b: Seq<u8>, j: int)
    ensures
        block_close(b, j) >= j,
    decreases b.len() - j,
{
    if !(j + 1 >= b.len() || (b[j] == 42 && b[j + 1] == 47)) {
        lemma_block_close(b, j + 1);
    }
}

/// The text from byte `i` on with `//` and `/* */` comments removed (not
/// inside strings), each kept byte taken as the character of that value.
pub open spec fn stripped(b: Seq<u8>, i: int, in_string: bool, escaped: bool) -> Seq<char>
    decreases b.len() - i,
{
    if i < 0 || i >= b.len() {
        Seq::empty()
    } else {
        let c = b[i];
        if in_string {
            seq![c as char] + stripped(b, i + 1, escaped || c != 34, !escaped && c == 92)
        } else if c == 34 {
            seq!['"'] + stripped(b, i + 1, true, escaped)
        } else if c == 47 && i + 1 < b.len() && b[i + 1] == 47 {
            proof {
                lemma_line_end(b, i + 1);
            }
            stripped(b, line_end(b, i + 1), false, escaped)
        } else if c == 47 && i + 1 < b.len() && b[i + 1] == 42 {
            proof {
                lemma_block_close(b, i + 2);
            }
            let next = block_close(b, i + 2) + 2;
            stripped(b, if next > b.len() { b.len() as int } else { next }, false, escaped)
        } else {
            seq![c as char] + stripped(b, i + 1, false, escaped)
        }
    }
}

/// The JSONC text with comments removed; strings are kept as they are, so a
/// `//` inside one stays.
pub fn strip_comments(input: &str) -> (r: String)
    ensures
        r@ == stripped(encode_utf8(input@), 0, false, false),
{
    let bytes = input.as_bytes();
    let ghost b = bytes@;
    let mut out = String::new();
    let mut i: usize = 0;
    let mut in_string = false;
    let mut escaped = false;
    while i < bytes.len()
        invariant
            b == bytes@,
            b == encode_utf8(input@),
            out@ + stripped(b, i as int, in_string, escaped) == stripped(b, 0, false, false),
        decreases bytes@.len() - i,
    {
        let c = bytes[i];
        if in_string {
            let ghost before = out@;
            out.push(c as char);
            let ns = escaped || c != 34;
            let ne = !escaped && c == 92;
            assert(stripped(b, i as int, in_string, escaped) == seq![c as char] + stripped(b, i + 1, ns, ne));
            assert(out@ + stripped(b, i + 1, ns, ne) =~= before + (seq![c as char] + stripped(b, i + 1, ns, ne)));
            in_string = ns;
            escaped = ne;
            i += 1;
        } else if c == 34 {
            let ghost before = out@;
            out.push('"');
            assert(out@ + stripped(b, i + 1, true, escaped) =~= before + (seq!['"'] + stripped(b, i + 1, true, escaped)));
            in_string = true;
            i += 1;
        } else if c == 47 && i + 1 < bytes.len() && bytes[i + 1] == 47 {
            let mut j = i + 1;
            while j < bytes.len() && bytes[j] != 10
                invariant
                    b == bytes@,
                    i < j <= bytes@.len(),
                    line_end(b, i + 1) == line_end(b, j as int),
                decreases bytes@.len() - j,
            {
                j += 1;
            }
            i = j;
        } else if c == 47 && i + 1 < bytes.len() && bytes[i + 1] == 42 {
            let mut j = i + 2;
            let n = bytes.len();
            while j < n - 1 && !(bytes[j] == 42 && bytes[j + 1] == 47)
                invariant
                    b == bytes@,
                    n == bytes@.len(),
                    n >= 2,
                    i + 2 <= j <= n,
                    block_close(b, i + 2) == block_close(b, j as int),
                decreases bytes@.len() - j,
            {
                j += 1;
            }
            assert(block_close(b, i + 2) == j);
            if j < n - 2 {
                i = j + 2;
            } else {
                i = n;
            }
        } else {
            let ghost before = out@;
            out.push(c as char);
            assert(out@ + stripped(b, i + 1, false, escaped) =~= before + (seq![c as char] + stripped(b, i + 1, false, escaped)));
            i += 1;
        }
    }
    assert(out@ + stripped(b, i as int, in_string, escaped) =~= out@);
    out
}

/// `n` occurs in `h` at byte `p`.
pub open spec fn occurs_at(h: Seq<u8>, n: Seq<u8>, p: int) -> bool {
    0 <= p && p + n.len() <= h.len() && h.subrange(p, p + n.len()) == n
}

/// The first position at or after `from` where `n` occurs.
pub open spec fn find_from(h: Seq<u8>, n: Seq<u8>, from: int) -> Option<int> {
    first_some(Seq::new((h.len() + 1 - from) as nat, |k: int| if occurs_at(h, n, from + k) { Some(from + k) } else { None }))
}

/// Byte `i` starts a character (or is the end): not a continuation byte.
pub open spec fn at_boundary(b: Seq<u8>, i: int) -> bool {
    i == 0 || i == b.len() || (0 < i < b.len() && !is_continuation_byte(b[i]))
}

/// The first occurrence of `n` in `h` at or after `from`.
pub fn find_bytes(h: &[u8], n: &[u8], from: usize) -> (r: Option<usize>)
    requires
        from <= h@.len(),
    ensures
        match r {
            Some(p) => find_from(h@, n@, from as int) == Some(p as int),
            None => find_from(h@, n@, from as int) is None,
        },
{
    let ghost marks = Seq::new((h@.len() + 1 - from) as nat, |k: int| if occurs_at(h@, n@, from + k) { Some(from + k) } else { None });
    let mut k: usize = 0;
    let hl = h.len();
    let total = hl - from;
    while k <= total
        invariant
            hl == h@.len(),
            from + total == h@.len(),
            k <= total + 1,
            marks == Seq::new((h@.len() + 1 - from) as nat, |k: int| if occurs_at(h@, n@, from + k) { Some(from + k) } else { None }),
            first_some(marks.take(k as int)) is None,
        decreases total + 1 - k,
    {
        let p = from + k;
        let mut ok = n.len() <= h.len() - p;
        if ok {
            let mut q: usize = 0;
            while q < n.len()
                invariant
                    hl == h@.len(),
                    p + n@.len() <= h@.len(),
                    q <= n@.len(),
                    ok == forall|t: int| 0 <= t < q ==> h@[p + t] == n@[t],
                decreases n@.len() - q,
            {
                if h[p + q] != n[q] {
                    ok = false;
                }
                q += 1;
            }
            assert(ok == (h@.subrange(p as int, p + n@.len()) =~= n@));
        }
        assert(ok == occurs_at(h@, n@, p as int));
        proof {
            lemma_first_some_step(marks, k as int);
        }
        if ok {
            proof {
                lemma_first_some_prefix(marks, k + 1);
            }
            return Some(p);
        }
        if k == total {
            proof {
                lemma_first_some_all(marks);
                assert(marks.take(k + 1) =~= marks);
            }
            return None;
        }
        k += 1;
    }
    proof {
        assert(marks.take(k as int) =~= marks);
    }
    None
}

/// Where a key and its quotes are: `"key"`.
pub open spec fn quoted(key: Seq<char>) -> Seq<u8> {
    seq![34u8] + encode_utf8(key) + seq![34u8]
}

fn quoted_key(key: &str) -> (r: Vec<u8>)
    ensures
        r@ == quoted(key@),
{
    let mut v: Vec<u8> = Vec::new();
    v.push(34);
    let kb = key.as_bytes();
    let mut i: usize = 0;
    while i < kb.len()
        invariant
            i <= kb@.len(),
            kb@ == encode_utf8(key@),
            v@ == seq![34u8] + kb@.take(i as int),
        decreases kb@.len() - i,
    {
        v.push(kb[i]);
        i += 1;
        assert(kb@.take(i as int) =~= kb@.take(i - 1).push(kb@[i - 1]));
    }
    assert(kb@.take(i as int) =~= kb@);
    v.push(34);
    assert(v@ =~= quoted(key@));
    v
}

/// The byte just after the first `"key"` in the text.
pub open spec fn key_end(b: Seq<u8>, key: Seq<char>) -> Option<int> {
    match find_from(b, quoted(key), 0) {
        Some(p) => Some(p + quoted(key).len()),
        None => None,
    }
}

/// Where the first `"key"` of the text ends (a byte offset).
pub fn find_key(src: &str, key: &str) -> (r: Option<usize>)
    ensures
        match r {
            Some(i) => key_end(encode_utf8(src@), key@) == Some(i as int),
            None => key_end(encode_utf8(src@), key@) is None,
        },
{
    let b = src.as_bytes();
    let bl = b.len();
    let n = quoted_key(key);
    match find_bytes(b, n.as_slice(), 0) {
        Some(p) => {
            proof {
                crate::text::lemma_first_some_member(Seq::new((b@.len() + 1 - 0) as nat, |k: int| if occurs_at(b@, n@, 0 + k) { Some(0 + k) } else { None }));
            }
            assert(p + n@.len() <= b@.len());
            Some(p + n.len())
        },
        None => None,
    }
}

/// The bytes of the string value of the first `"key"` at or after byte
/// `from`: after the colon that follows, between the next two quotes. Each
/// step stops (nothing) if its position does not start a character.
pub open spec fn field_bytes(b: Seq<u8>, key: Seq<char>, from: int) -> Option<Seq<u8>> {
    if !at_boundary(b, from) {
        None
    } else {
        match find_from(b, quoted(key), from) {
            None => None,
            Some(p) => {
                let at = p + quoted(key).len();
                if !at_boundary(b, at) {
                    None
                } else {
                    match find_from(b, seq![58u8], at) {
                        None => None,
                        Some(c) => {
                            let colon = c + 1;
                            if !at_boundary(b, colon) {
                                None
                            } else {
                                match find_from(b, seq![34u8], colon) {
                                    None => None,
                                    Some(o) => {
                                        let open = o + 1;
                                        if !at_boundary(b, open) {
                                            None
                                        } else {
                                            match find_from(b, seq![34u8], open) {
                                                None => None,
                                                Some(cl) => Some(b.subrange(open, cl)),
                                            }
                                        }
                                    },
                                }
                            }
                        },
                    }
                }
            },
        }
    }
}

/// On valid UTF-8, a position that is not a continuation byte starts a character.
pub proof fn lemma_boundary(b: Seq<u8>, i: int)
    requires
        valid_utf8(b),
        at_boundary(b, i),
    ensures
        is_char_boundary(b, i),
{
    vstd::utf8::is_char_boundary_start_end_of_seq(b);
    if 0 < i < b.len() {
        vstd::utf8::is_char_boundary_iff_not_is_continuation_byte(b, i);
    }
}

/// On valid UTF-8, the byte after an ASCII byte starts a character.
pub proof fn lemma_after_ascii(b: Seq<u8>, o: int)
    requires
        valid_utf8(b),
        0 <= o < b.len(),
        b[o] < 128,
    ensures
        at_boundary(b, o),
        at_boundary(b, o + 1),
{
    if o + 1 < b.len() {
        lemma_boundary(b, o);
        vstd::utf8::valid_utf8_split(b, o);
        let t = b.subrange(o, b.len() as int);
        assert(valid_utf8(t));
        assert(t[0] == b[o]);
        assert(vstd::utf8::pop_first_scalar(t) =~= b.subrange(o + 1, b.len() as int));
        let u = b.subrange(o + 1, b.len() as int);
        assert(valid_utf8(u));
        assert(u[0] == b[o + 1]);
    }
}

pub fn boundary_at(b: &[u8], i: usize) -> (r: bool)
    ensures
        r == at_boundary(b@, i as int),
{
    i == 0 || i == b.len() || (i < b.len() && !(0x80 <= b[i] && b[i] <= 0xbf))
}

pub proof fn lemma_found(h: Seq<u8>, n: Seq<u8>, from: int)
    requires
        0 <= from <= h.len(),
        find_from(h, n, from) is Some,
    ensures
        occurs_at(h, n, find_from(h, n, from).unwrap()),
        find_from(h, n, from).unwrap() >= from,
{
    let marks = Seq::new((h.len() + 1 - from) as nat, |k: int| if occurs_at(h, n, from + k) { Some(from + k) } else { None });
    crate::text::lemma_first_some_member(marks);
}

/// The string value of the first `"key"` at or after byte `from`.
pub fn string_field(src: &str, key: &str, from: usize) -> (r: Option<String>)
    ensures
        match r {
            Some(v) => field_bytes(encode_utf8(src@), key@, from as int) == Some(encode_utf8(v@)),
            None => field_bytes(encode_utf8(src@), key@, from as int) is None,
        },
{
    let b = src.as_bytes();
    let ghost bs = b@;
    let bl = b.len();
    proof {
        vstd::utf8::encode_utf8_valid_utf8(src@);
    }
    if from > bl || !boundary_at(b, from) {
        return None;
    }
    let needle = quoted_key(key);
    let p = match find_bytes(b, needle.as_slice(), from) {
        Some(p) => p,
        None => {
            return None;
        },
    };
    proof {
        lemma_found(bs, needle@, from as int);
    }
    let at = p + needle.len();
    if !boundary_at(b, at) {
        return None;
    }
    let colon_mark: Vec<u8> = vec![58];
    let quote_mark: Vec<u8> = vec![34];
    assert(colon_mark@ =~= seq![58u8]);
    assert(quote_mark@ =~= seq![34u8]);
    let c = match find_bytes(b, colon_mark.as_slice(), at) {
        Some(c) => c,
        None => {
            return None;
        },
    };
    proof {
        lemma_found(bs, colon_mark@, at as int);
    }
    let colon = c + 1;
    if !boundary_at(b, colon) {
        return None;
    }
    let o = match find_bytes(b, quote_mark.as_slice(), colon) {
        Some(o) => o,
        None => {
            return None;
        },
    };
    proof {
        lemma_found(bs, quote_mark@, colon as int);
    }
    let open = o + 1;
    if !boundary_at(b, open) {
        return None;
    }
    let cl = match find_bytes(b, quote_mark.as_slice(), open) {
        Some(cl) => cl,
        None => {
            return None;
        },
    };
    proof {
        lemma_found(bs, quote_mark@, open as int);
        assert(bs.subrange(cl as int, cl + 1)[0] == bs[cl as int]);
        lemma_boundary(bs, open as int);
    }
    let (_, tail) = src.split_at(open);
    let ghost tb = encode_utf8(tail@);
    assert(tb =~= bs.subrange(open as int, bs.len() as int));
    proof {
        vstd::utf8::encode_utf8_valid_utf8(tail@);
        assert(tb[cl - open] == bs[cl as int]);
        lemma_boundary(tb, cl - open);
    }
    let (val, _) = tail.split_at(cl - open);
    assert(encode_utf8(val@) =~= bs.subrange(open as int, cl as int));
    Some(val.to_owned())
}

/// The bytes between the first `[` at or after `at` and the first `]` after it.
pub open spec fn array_body(b: Seq<u8>, at: int) -> Option<Seq<u8>> {
    if !at_boundary(b, at) {
        None
    } else {
        match find_from(b, seq![91u8], at) {
            None => None,
            Some(o) => match find_from(b, seq![93u8], o) {
                None => None,
                Some(c) => Some(b.subrange(o + 1, c)),
            },
        }
    }
}

/// The index of the first `"` at or after `i` (or the end).
pub open spec fn next_quote(cs: Seq<char>, i: int) -> int
    decreases cs.len() - i,
{
    if i >= cs.len() || cs[i] == '"' {
        i
    } else {
        next_quote(cs, i + 1)
    }
}

pub proof fn lemma_next_quote(cs: Seq<char>, i: int)
    ensures
        next_quote(cs, i) >= i,
        i <= cs.len() ==> next_quote(cs, i) <= cs.len(),
    decreases cs.len() - i,
{
    if !(i >= cs.len() || cs[i] == '"') {
        lemma_next_quote(cs, i + 1);
    }
}

/// The non-empty quoted strings from character `i` on; an unclosed one runs
/// to the end.
pub open spec fn quoted_strings(cs: Seq<char>, i: int) -> Seq<Seq<char>>
    decreases cs.len() - i,
{
    if i < 0 || i >= cs.len() {
        Seq::empty()
    } else if cs[i] != '"' {
        quoted_strings(cs, i + 1)
    } else {
        proof {
            lemma_next_quote(cs, i + 1);
        }
        let j = next_quote(cs, i + 1);
        let s = cs.subrange(i + 1, j);
        (if s.len() > 0 { seq![s] } else { Seq::empty() }) + if j + 1 >= cs.len() {
            Seq::empty()
        } else {
            quoted_strings(cs, j + 1)
        }
    }
}

/// The strings of the first array at or after byte `at`.
pub open spec fn array_strings(b: Seq<u8>, at: int) -> Seq<Seq<char>> {
    match array_body(b, at) {
        None => Seq::empty(),
        Some(body) => quoted_strings(decode_utf8(body), 0),
    }
}

/// The non-empty strings of the first `[...]` at or after byte `at`.
pub fn string_array(src: &str, at: usize) -> (r: Vec<String>)
    ensures
        r@.map_values(|s: String| s@) == array_strings(encode_utf8(src@), at as int),
{
    let b = src.as_bytes();
    let ghost bs = b@;
    let bl = b.len();
    let mut out: Vec<String> = Vec::new();
    proof {
        vstd::utf8::encode_utf8_valid_utf8(src@);
    }
    if at > bl || !boundary_at(b, at) {
        assert(out@.map_values(|s: String| s@) =~= Seq::<Seq<char>>::empty());
        return out;
    }
    let open_mark: Vec<u8> = vec![91];
    let close_mark: Vec<u8> = vec![93];
    assert(open_mark@ =~= seq![91u8]);
    assert(close_mark@ =~= seq![93u8]);
    let o = match find_bytes(b, open_mark.as_slice(), at) {
        Some(o) => o,
        None => {
            assert(out@.map_values(|s: String| s@) =~= Seq::<Seq<char>>::empty());
            return out;
        },
    };
    proof {
        lemma_found(bs, open_mark@, at as int);
        assert(bs.subrange(o as int, o + 1)[0] == bs[o as int]);
    }
    let c = match find_bytes(b, close_mark.as_slice(), o) {
        Some(c) => c,
        None => {
            assert(out@.map_values(|s: String| s@) =~= Seq::<Seq<char>>::empty());
            return out;
        },
    };
    proof {
        lemma_found(bs, close_mark@, o as int);
        assert(bs.subrange(c as int, c + 1)[0] == bs[c as int]);
        lemma_after_ascii(bs, o as int);
        lemma_boundary(bs, o + 1);
    }
    let (_, tail) = src.split_at(o + 1);
    let ghost tb = encode_utf8(tail@);
    assert(tb =~= bs.subrange(o + 1, bs.len() as int));
    proof {
        vstd::utf8::encode_utf8_valid_utf8(tail@);
        assert(tb[c - o - 1] == bs[c as int]);
        lemma_boundary(tb, c - o - 1);
    }
    let (body, _) = tail.split_at(c - o - 1);
    assert(encode_utf8(body@) =~= bs.subrange(o + 1, c as int));
    proof {
        vstd::utf8::encode_utf8_decode_utf8(body@);
    }
    let cs = crate::text::chars_of(body);
    let ghost all = quoted_strings(cs@, 0);
    let n = cs.len();
    let mut i: usize = 0;
    assert(out@.map_values(|s: String| s@) =~= Seq::<Seq<char>>::empty());
    while i < n
        invariant
            n == cs@.len(),
            i <= n + 1,
            out@.map_values(|s: String| s@) + quoted_strings(cs@, i as int) == all,
        decreases n + 1 - i,
    {
        if cs[i] != '"' {
            i += 1;
        } else {
            let mut j = i + 1;
            while j < n && cs[j] != '"'
                invariant
                    n == cs@.len(),
                    i < j <= n,
                    next_quote(cs@, i + 1) == next_quote(cs@, j as int),
                decreases n - j,
            {
                j += 1;
            }
            let piece = vstd::slice::slice_subrange(cs.as_slice(), i + 1, j);
            let ghost before = out@.map_values(|s: String| s@);
            if piece.len() > 0 {
                out.push(crate::text::string_of(piece));
                assert(out@.map_values(|s: String| s@) =~= before.push(piece@));
            }
            if j < n {
                assert(out@.map_values(|s: String| s@) + quoted_strings(cs@, j + 1) =~= before + quoted_strings(cs@, i as int));
                i = j + 1;
            } else {
                assert(out@.map_values(|s: String| s@) + quoted_strings(cs@, n as int) =~= before + quoted_strings(cs@, i as int));
                i = n;
            }
        }
    }
    assert(quoted_strings(cs@, i as int) =~= Seq::<Seq<char>>::empty());
    assert(out@.map_values(|s: String| s@) =~= all);
    out
}

} // verus!
