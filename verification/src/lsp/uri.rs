//! `file://` URIs for paths, as language servers exchange them.
use vstd::prelude::*;
use vstd::utf8::{decode_utf8, encode_utf8, valid_utf8};
use crate::resolve::javascript::jsonc::at_boundary;
use crate::text::is_prefix;

verus! {

/// A byte written as itself in a URI: ASCII letters and digits and `-._~/:`.
pub open spec fn is_unreserved(b: u8) -> bool {
    (48 <= b <= 57) || (65 <= b <= 90) || (97 <= b <= 122) || b == 45 || b == 46 || b == 95 || b == 126
        || b == 47 || b == 58
}

/// The upper-case hex digit of a value below 16.
pub open spec fn hex_digit(v: u8) -> char {
    if v < 10 {
        ((v + 48) as u8) as char
    } else {
        ((v + 55) as u8) as char
    }
}

/// The URI text of bytes: unreserved ones as characters, others as `%XX`.
pub open spec fn escaped(b: Seq<u8>) -> Seq<char>
    decreases b.len(),
{
    if b.len() == 0 {
        Seq::empty()
    } else {
        let c = b[0];
        (if is_unreserved(c) { seq![c as char] } else { seq!['%', hex_digit(c / 16), hex_digit(c % 16)] })
            + escaped(b.drop_first())
    }
}

/// The path with `\` made `/` and a Windows verbatim prefix (`//?/`, or
/// `//?/UNC/` which leaves `//`) taken off.
pub open spec fn uri_path_text(path: Seq<char>) -> Seq<char> {
    let t = path.map_values(|c: char| if c == '\\' { '/' } else { c });
    if is_prefix("//?/UNC/"@, t) {
        seq!['/', '/'] + t.skip("//?/UNC/"@.len() as int)
    } else if is_prefix("//?/"@, t) {
        t.skip("//?/"@.len() as int)
    } else {
        t
    }
}

/// The `file://` URI of a path: `file://`, a `/` unless the path starts with
/// one, then the path's bytes escaped.
pub open spec fn uri_of(path: Seq<char>) -> Seq<char> {
    let t = uri_path_text(path);
    "file://"@ + (if t.len() > 0 && t[0] == '/' { Seq::empty() } else { seq!['/'] }) + escaped(encode_utf8(t))
}

fn hex_char(v: u8) -> (c: char)
    requires
        v < 16,
    ensures
        c == hex_digit(v),
{
    if v < 10 {
        (v + 48) as char
    } else {
        (v + 55) as char
    }
}

/// The `file://` URI of a path given as text.
pub fn path_to_uri(path: &str) -> (r: String)
    ensures
        r@ == uri_of(path@),
{
    let p = crate::text::chars_of(path);
    let t0 = crate::text::replace_char(p.as_slice(), '\\', '/');
    let unc = crate::text::chars_of("//?/UNC/");
    let verbatim = crate::text::chars_of("//?/");
    let t: Vec<char> = if crate::text::starts_with(t0.as_slice(), unc.as_slice()) {
        let mut v: Vec<char> = Vec::new();
        v.push('/');
        v.push('/');
        let r = crate::text::concat_chars(v.as_slice(), vstd::slice::slice_subrange(t0.as_slice(), unc.len(), t0.len()));
        assert(r@ =~= seq!['/', '/'] + t0@.skip("//?/UNC/"@.len() as int));
        r
    } else if crate::text::starts_with(t0.as_slice(), verbatim.as_slice()) {
        let r = vstd::slice::slice_to_vec(vstd::slice::slice_subrange(t0.as_slice(), verbatim.len(), t0.len()));
        assert(r@ =~= t0@.skip("//?/"@.len() as int));
        r
    } else {
        t0
    };
    let ts = crate::text::string_of(t.as_slice());
    let bytes = ts.as_str().as_bytes();
    let mut out = crate::text::owned("file://");
    if !(t.len() > 0 && t[0] == '/') {
        out.push('/');
    }
    let ghost head = out@;
    let mut i: usize = 0;
    assert(bytes@.skip(0) =~= bytes@);
    while i < bytes.len()
        invariant
            i <= bytes@.len(),
            out@ + escaped(bytes@.skip(i as int)) == head + escaped(bytes@),
        decreases bytes@.len() - i,
    {
        let c = bytes[i];
        let ghost before = out@;
        assert(bytes@.skip(i as int).drop_first() =~= bytes@.skip(i + 1));
        assert(bytes@.skip(i as int)[0] == c);
        if (48 <= c && c <= 57) || (65 <= c && c <= 90) || (97 <= c && c <= 122) || c == 45 || c == 46 || c == 95
            || c == 126 || c == 47 || c == 58 {
            out.push(c as char);
            assert(out@ + escaped(bytes@.skip(i + 1)) =~= before + escaped(bytes@.skip(i as int)));
        } else {
            out.push('%');
            out.push(hex_char(c / 16));
            out.push(hex_char(c % 16));
            assert(out@ + escaped(bytes@.skip(i + 1)) =~= before + escaped(bytes@.skip(i as int)));
        }
        i += 1;
    }
    assert(bytes@.skip(i as int) =~= Seq::<u8>::empty());
    assert(out@ =~= head + escaped(bytes@));
    out
}

/// The value of an ASCII hex digit.
pub open spec fn hex_val(c: u8) -> Option<u8> {
    if 48 <= c <= 57 {
        Some((c - 48) as u8)
    } else if 65 <= c <= 70 {
        Some((c - 55) as u8)
    } else if 97 <= c <= 102 {
        Some((c - 87) as u8)
    } else {
        None
    }
}

/// The byte two characters after a `%` stand for, as `u8::from_str_radix(_, 16)`
/// reads them: two hex digits, or `+` and one.
pub open spec fn escape_value(c1: u8, c2: u8) -> Option<u8> {
    match (hex_val(c1), hex_val(c2)) {
        (Some(a), Some(b)) => Some((16 * a + b) as u8),
        _ => if c1 == 43 { hex_val(c2) } else { None },
    }
}

/// The bytes from `i` on with each readable `%XX` replaced by its byte; a `%`
/// that does not start one stays.
pub open spec fn percent_decoded(b: Seq<u8>, i: int) -> Seq<u8>
    decreases b.len() - i,
{
    if i < 0 || i >= b.len() {
        Seq::empty()
    } else if b[i] == 37 && i + 2 < b.len() && escape_value(b[i + 1], b[i + 2]) is Some {
        seq![escape_value(b[i + 1], b[i + 2]).unwrap()] + percent_decoded(b, i + 3)
    } else {
        seq![b[i]] + percent_decoded(b, i + 1)
    }
}

/// The text of `bytes` with each invalid UTF-8 sequence replaced by U+FFFD,
/// as `String::from_utf8_lossy` makes it.
pub uninterp spec fn lossy_text(bytes: Seq<u8>) -> Seq<char>;

/// `String::from_utf8_lossy`: its text is named `lossy_text`; valid UTF-8 comes
/// back unchanged.
#[verifier::external_body]
pub(crate) fn from_utf8_lossy(bytes: &[u8]) -> (r: String)
    ensures
        r@ == lossy_text(bytes@),
        valid_utf8(bytes@) ==> r@ == decode_utf8(bytes@),
{
    String::from_utf8_lossy(bytes).into_owned()
}

/// `std::path::MAIN_SEPARATOR`, which is `/` or `\` depending on the platform.
#[verifier::external_body]
pub(crate) fn main_separator() -> (r: char)
    ensures
        r == '/' || r == '\\',
{
    std::path::MAIN_SEPARATOR
}

/// The text of `%`-escaped bytes, decoded: valid UTF-8 as it is, anything
/// else with invalid sequences replaced.
pub open spec fn decoded(b: Seq<u8>) -> Seq<char> {
    let d = percent_decoded(b, 0);
    if valid_utf8(d) { decode_utf8(d) } else { lossy_text(d) }
}

/// No `%` has its two following bytes end inside a character (slicing there
/// would fail).
pub open spec fn escapes_split_cleanly(b: Seq<u8>) -> bool {
    forall|i: int| 0 <= i && i + 2 < b.len() && #[trigger] b[i] == 37 ==> at_boundary(b, i + 3)
}

fn decode_bytes(b: &[u8], from: usize) -> (r: String)
    requires
        from <= b@.len(),
    ensures
        r@ == decoded(b@.skip(from as int)),
{
    let ghost t = b@.skip(from as int);
    let mut out: Vec<u8> = Vec::new();
    let mut i = from;
    let n = b.len();
    while i < n
        invariant
            n == b@.len(),
            from <= i <= n,
            t == b@.skip(from as int),
            out@ + percent_decoded(t, i - from) == percent_decoded(t, 0),
        decreases n - i,
    {
        let j = i - from;
        assert(t[j as int] == b@[i as int]);
        if b[i] == 37 && n - i > 2 {
            let c1 = b[i + 1];
            let c2 = b[i + 2];
            assert(t[j + 1] == c1 && t[j + 2] == c2);
            let v1 = hex_value(c1);
            let v2 = hex_value(c2);
            let v: Option<u8> = match (v1, v2) {
                (Some(a), Some(bb)) => Some(16 * a + bb),
                _ => if c1 == 43 { v2 } else { None },
            };
            assert(v == escape_value(c1, c2));
            if let Some(x) = v {
                let ghost before = out@;
                out.push(x);
                assert(out@ + percent_decoded(t, j + 3) =~= before + percent_decoded(t, j as int));
                i += 3;
                continue;
            }
        }
        let ghost before = out@;
        out.push(b[i]);
        assert(out@ + percent_decoded(t, j + 1) =~= before + percent_decoded(t, j as int));
        i += 1;
    }
    assert(out@ =~= percent_decoded(t, 0));
    from_utf8_lossy(out.as_slice())
}

fn hex_value(c: u8) -> (r: Option<u8>)
    ensures
        r == hex_val(c),
        r matches Some(v) ==> v < 16,
{
    if 48 <= c && c <= 57 {
        Some(c - 48)
    } else if 65 <= c && c <= 70 {
        Some(c - 55)
    } else if 97 <= c && c <= 102 {
        Some(c - 87)
    } else {
        None
    }
}

/// `%`-escapes in `text` decoded, invalid UTF-8 replaced.
pub fn decode(text: &str) -> (r: String)
    requires
        escapes_split_cleanly(encode_utf8(text@)),
    ensures
        r@ == decoded(encode_utf8(text@)),
{
    let b = text.as_bytes();
    assert(b@.skip(0) =~= b@);
    decode_bytes(b, 0)
}

/// Whether no `%` in `text` has its two following bytes end inside a
/// character: what `decode` and `uri_to_path` ask of their input.
pub fn splits_cleanly(text: &str) -> (r: bool)
    ensures
        r == escapes_split_cleanly(encode_utf8(text@)),
{
    let b = text.as_bytes();
    let n = b.len();
    let mut i: usize = 0;
    while i < n
        invariant
            n == b@.len(),
            b@ == encode_utf8(text@),
            i <= n,
            forall|k: int| 0 <= k < i && k + 2 < b@.len() && #[trigger] b@[k] == 37 ==> at_boundary(b@, k + 3),
        decreases n - i,
    {
        if b[i] == 37 && n - i > 2 {
            let end = i + 3;
            if end < n && 0x80 <= b[end] && b[end] <= 0xbf {
                assert(!at_boundary(b@, end as int));
                return false;
            }
        }
        i += 1;
    }
    true
}

/// The path a `file://` URI names: with a third slash, the decoded rest, a
/// `/` in front unless it starts with a drive (`C:`); without one, a UNC path
/// `//host/...` with the platform's separator. Other schemes give nothing.
pub open spec fn path_of_uri(uri: Seq<char>, sep: char) -> Option<Seq<char>> {
    if !is_prefix("file://"@, uri) {
        None
    } else {
        let rest = uri.skip("file://"@.len() as int);
        if rest.len() > 0 && rest[0] == '/' {
            let d = decoded(encode_utf8(rest.drop_first()));
            let db = encode_utf8(d);
            let drive = db.len() >= 2 && ((65 <= db[0] <= 90) || (97 <= db[0] <= 122)) && db[1] == 58;
            Some(if drive { d } else { seq!['/'] + d })
        } else {
            Some(decoded(encode_utf8(seq!['/', '/'] + rest)).map_values(|c: char| if c == '/' { sep } else { c }))
        }
    }
}

/// The path a `file://` URI names, as text; nothing for another scheme.
pub fn uri_to_path(uri: &str) -> (r: Option<String>)
    requires
        is_prefix("file://"@, uri@) ==> escapes_split_cleanly(encode_utf8(uri@)),
    ensures
        exists|sep: char| (sep == '/' || sep == '\\') && match r {
            Some(p) => path_of_uri(uri@, sep) == Some(p@),
            None => path_of_uri(uri@, sep) is None,
        },
{
    let sep = main_separator();
    let u = crate::text::chars_of(uri);
    let scheme = crate::text::chars_of("file://");
    if !crate::text::starts_with(u.as_slice(), scheme.as_slice()) {
        assert(path_of_uri(uri@, sep) is None);
        return None;
    }
    let rest = vstd::slice::slice_subrange(u.as_slice(), scheme.len(), u.len());
    assert(rest@ =~= uri@.skip("file://"@.len() as int));
    if rest.len() > 0 && rest[0] == '/' {
        let tail = crate::text::string_of(vstd::slice::slice_subrange(rest, 1, rest.len()));
        assert(tail@ =~= rest@.drop_first());
        let tb = tail.as_str().as_bytes();
        assert(tb@.skip(0) =~= tb@);
        let d = decode_bytes(tb, 0);
        let db = d.as_str().as_bytes();
        let drive = db.len() >= 2 && ((65 <= db[0] && db[0] <= 90) || (97 <= db[0] && db[0] <= 122)) && db[1] == 58;
        if drive {
            return Some(d);
        }
        let mut out = String::new();
        out.push('/');
        let r = crate::text::concat(out.as_str(), d.as_str());
        assert(r@ =~= seq!['/'] + d@);
        return Some(r);
    }
    let mut lead: Vec<char> = Vec::new();
    lead.push('/');
    lead.push('/');
    let whole = crate::text::string_of(crate::text::concat_chars(lead.as_slice(), rest).as_slice());
    assert(whole@ =~= seq!['/', '/'] + rest@);
    let wb = whole.as_str().as_bytes();
    assert(wb@.skip(0) =~= wb@);
    let d = decode_bytes(wb, 0);
    let dc = crate::text::chars_of(d.as_str());
    let replaced = crate::text::replace_char(dc.as_slice(), '/', sep);
    Some(crate::text::string_of(replaced.as_slice()))
}


/// The byte of the upper-case hex digit of a value below 16.
pub open spec fn hex_byte(v: u8) -> u8 {
    if v < 10 { (v + 48) as u8 } else { (v + 55) as u8 }
}

/// The bytes of `escaped(b)`.
pub open spec fn escaped_bytes(b: Seq<u8>) -> Seq<u8>
    decreases b.len(),
{
    if b.len() == 0 {
        Seq::empty()
    } else {
        let c = b[0];
        (if is_unreserved(c) { seq![c] } else { seq![37u8, hex_byte(c / 16), hex_byte(c % 16)] })
            + escaped_bytes(b.drop_first())
    }
}

proof fn lemma_escaped_bytes(b: Seq<u8>)
    ensures
        encode_utf8(escaped(b)) == escaped_bytes(b),
    decreases b.len(),
{
    broadcast use vstd::utf8::is_ascii_chars_encode_utf8;
    if b.len() > 0 {
        let c = b[0];
        lemma_escaped_bytes(b.drop_first());
        let u: Seq<char> = if is_unreserved(c) { seq![c as char] } else { seq!['%', hex_digit(c / 16), hex_digit(c % 16)] };
        let ub: Seq<u8> = if is_unreserved(c) { seq![c] } else { seq![37u8, hex_byte(c / 16), hex_byte(c % 16)] };
        crate::text::lemma_encode_concat(u, escaped(b.drop_first()));
        assert(vstd::utf8::is_ascii_chars(u));
        assert(encode_utf8(u) =~= ub) by {
            if is_unreserved(c) {
                assert(u[0] as u8 == encode_utf8(u)[0]);
                assert((c as char) as u8 == c);
            } else {
                assert(u[0] as u8 == encode_utf8(u)[0]);
                assert(u[1] as u8 == encode_utf8(u)[1]);
                assert(u[2] as u8 == encode_utf8(u)[2]);
                assert(hex_digit(c / 16) as u8 == hex_byte(c / 16));
                assert(hex_digit(c % 16) as u8 == hex_byte(c % 16));
            }
        }
    }
}

proof fn lemma_percent_decoded_skip(x: Seq<u8>, i: int, j: int)
    requires
        0 <= i <= x.len(),
        0 <= j,
    ensures
        percent_decoded(x, i + j) == percent_decoded(x.skip(i), j),
    decreases x.len() - (i + j),
{
    let y = x.skip(i);
    if i + j < x.len() {
        assert(y[j] == x[i + j]);
        if x[i + j] == 37 && i + j + 2 < x.len() && escape_value(x[i + j + 1], x[i + j + 2]) is Some {
            assert(y[j + 1] == x[i + j + 1] && y[j + 2] == x[i + j + 2]);
            lemma_percent_decoded_skip(x, i, j + 3);
        } else {
            if j + 2 < y.len() {
                assert(y[j + 1] == x[i + j + 1] && y[j + 2] == x[i + j + 2]);
            }
            lemma_percent_decoded_skip(x, i, j + 1);
        }
    }
}

proof fn lemma_hex_round_trip(v: u8)
    requires
        v < 16,
    ensures
        hex_val(hex_byte(v)) == Some(v),
{
}

proof fn lemma_decode_escaped(b: Seq<u8>)
    ensures
        percent_decoded(escaped_bytes(b), 0) == b,
    decreases b.len(),
{
    if b.len() > 0 {
        let c = b[0];
        let rest = escaped_bytes(b.drop_first());
        let e = escaped_bytes(b);
        lemma_decode_escaped(b.drop_first());
        if is_unreserved(c) {
            assert(e =~= seq![c] + rest);
            lemma_percent_decoded_skip(e, 1, 0);
            assert(e.skip(1) =~= rest);
            assert(seq![c] + b.drop_first() =~= b);
        } else {
            assert(e =~= seq![37u8, hex_byte(c / 16), hex_byte(c % 16)] + rest);
            lemma_hex_round_trip(c / 16);
            lemma_hex_round_trip(c % 16);
            assert(escape_value(e[1], e[2]) == Some(c));
            lemma_percent_decoded_skip(e, 3, 0);
            assert(e.skip(3) =~= rest);
            assert(seq![c] + b.drop_first() =~= b);
        }
    }
}

/// Whether decoded URI text starts like a drive, `C:`.
pub open spec fn drive_like(d: Seq<char>) -> bool {
    let db = encode_utf8(d);
    db.len() >= 2 && ((65 <= db[0] <= 90) || (97 <= db[0] <= 122)) && db[1] == 58
}

/// A Unix path turned into a `file://` URI and back is the same path:
/// provided it is absolute, holds no `\`, does not start with a Windows
/// verbatim prefix, and its first component does not read as a drive.
pub proof fn lemma_uri_round_trip(p: Seq<char>, sep: char)
    requires
        p.len() >= 1,
        p[0] == '/',
        forall|i: int| 0 <= i < p.len() ==> p[i] != '\\',
        !is_prefix("//?/"@, p),
        !drive_like(p.drop_first()),
    ensures
        path_of_uri(uri_of(p), sep) == Some(p),
{
    broadcast use vstd::utf8::is_ascii_chars_encode_utf8;
    reveal_strlit("//?/UNC/");
    reveal_strlit("//?/");
    reveal_strlit("file://");
    let t = p.map_values(|c: char| if c == '\\' { '/' } else { c });
    assert(t =~= p);
    if is_prefix("//?/UNC/"@, p) {
        assert(p.subrange(0, 4) =~= "//?/"@) by {
            assert(p.subrange(0, 8)[0] == p[0]);
            assert(p.subrange(0, 8)[1] == p[1]);
            assert(p.subrange(0, 8)[2] == p[2]);
            assert(p.subrange(0, 8)[3] == p[3]);
        }
    }
    assert(uri_path_text(p) == p);
    let rest_chars = p.drop_first();
    assert(seq!['/'] + rest_chars =~= p);
    crate::text::lemma_encode_concat(seq!['/'], rest_chars);
    assert(vstd::utf8::is_ascii_chars(seq!['/']));
    assert(encode_utf8(seq!['/']) =~= seq![47u8]) by {
        assert(seq!['/'][0] as u8 == encode_utf8(seq!['/'])[0]);
    }
    let bb = encode_utf8(rest_chars);
    let all = encode_utf8(p);
    assert(all == seq![47u8] + bb);
    assert(all[0] == 47u8);
    assert(all.drop_first() =~= bb);
    assert(escaped(all) == seq!['/'] + escaped(bb)) by {
        assert((47u8 as char) == '/');
    }
    let uri = uri_of(p);
    assert(uri == "file://"@ + Seq::<char>::empty() + escaped(all));
    assert(is_prefix("file://"@, uri)) by {
        assert(uri.subrange(0, 7) =~= "file://"@);
    }
    let rest = uri.skip(7);
    assert(rest =~= seq!['/'] + escaped(bb));
    assert(rest.drop_first() =~= escaped(bb));
    lemma_escaped_bytes(bb);
    lemma_decode_escaped(bb);
    vstd::utf8::encode_utf8_valid_utf8(rest_chars);
    vstd::utf8::encode_utf8_decode_utf8(rest_chars);
    assert(decoded(encode_utf8(rest.drop_first())) == rest_chars);
}


proof fn lemma_escaped_ascii(b: Seq<u8>)
    ensures
        vstd::utf8::is_ascii_chars(escaped(b)),
    decreases b.len(),
{
    if b.len() > 0 {
        lemma_escaped_ascii(b.drop_first());
        let c = b[0];
        let u: Seq<char> = if is_unreserved(c) { seq![c as char] } else { seq!['%', hex_digit(c / 16), hex_digit(c % 16)] };
        assert(vstd::utf8::is_ascii_chars(u));
        assert(escaped(b) == u + escaped(b.drop_first()));
        assert forall|i: int| 0 <= i < escaped(b).len() implies '\0' <= #[trigger] escaped(b)[i] <= '\u{7f}' by {
            if i < u.len() {
                assert(escaped(b)[i] == u[i]);
            } else {
                assert(escaped(b)[i] == escaped(b.drop_first())[i - u.len()]);
            }
        }
    }
}

/// Every `file://` URI made from a path is ASCII, so it meets what
/// `uri_to_path` asks of its escapes.
pub proof fn lemma_uri_splits_cleanly(p: Seq<char>)
    ensures
        escapes_split_cleanly(encode_utf8(uri_of(p))),
{
    broadcast use vstd::utf8::is_ascii_chars_encode_utf8;
    reveal_strlit("file://");
    let t = uri_path_text(p);
    let mid: Seq<char> = if t.len() > 0 && t[0] == '/' { Seq::empty() } else { seq!['/'] };
    let e = escaped(encode_utf8(t));
    lemma_escaped_ascii(encode_utf8(t));
    let u = uri_of(p);
    assert(u == "file://"@ + mid + e);
    assert(vstd::utf8::is_ascii_chars(u)) by {
        assert forall|i: int| 0 <= i < u.len() implies '\0' <= #[trigger] u[i] <= '\u{7f}' by {
            if i < 7 {
                assert(u[i] == "file://"@[i]);
            } else if i < 7 + mid.len() {
                assert(u[i] == mid[i - 7]);
            } else {
                assert(u[i] == e[i - 7 - mid.len()]);
            }
        }
    }
    let bytes = encode_utf8(u);
    assert forall|i: int| 0 <= i && i + 2 < bytes.len() && #[trigger] bytes[i] == 37 implies at_boundary(bytes, i + 3) by {
        if i + 3 < bytes.len() {
            assert(u[i + 3] as u8 == bytes[i + 3]);
            assert((u[i + 3] as u8) < 128);
        }
    }
}

/// A URI of any other scheme names no path.
pub proof fn lemma_other_scheme(uri: Seq<char>, sep: char)
    requires
        !is_prefix("file://"@, uri),
    ensures
        path_of_uri(uri, sep) is None,
{
}

} // verus!
