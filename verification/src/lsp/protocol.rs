//! How messages to and from a language server are framed: each body comes
//! after header lines, of which `Content-Length` gives the body's size in
//! bytes, and a blank line.
use vstd::prelude::*;
use crate::text::{ascii_lower, ascii_lowercase, chars_eq, chars_of, find_char, first_index_of, trim, trim_chars};

verus! {

/// `s` without the line breaks (`\r` and `\n`) at its end.
pub open spec fn without_line_end(s: Seq<char>) -> Seq<char>
    decreases s.len(),
{
    if s.len() > 0 && (s.last() == '\r' || s.last() == '\n') {
        without_line_end(s.drop_last())
    } else {
        s
    }
}

/// The value of a string of decimal digits.
pub open spec fn digits_value(d: Seq<char>) -> nat
    decreases d.len(),
{
    if d.len() == 0 {
        0
    } else {
        (digits_value(d.drop_last()) * 10 + (d.last() as int - '0' as int)) as nat
    }
}

/// Every character is a decimal digit.
pub open spec fn all_digits(d: Seq<char>) -> bool {
    forall|i: int| 0 <= i < d.len() ==> '0' <= #[trigger] d[i] && d[i] <= '9'
}

/// A size as `usize::from_str` reads it: an optional `+`, then one or more
/// decimal digits, of a value that fits.
pub open spec fn size_of_text(t: Seq<char>) -> Option<usize> {
    let d = if t.len() > 0 && t[0] == '+' { t.drop_first() } else { t };
    if d.len() == 0 || !all_digits(d) {
        None
    } else if digits_value(d) > usize::MAX {
        None
    } else {
        Some(digits_value(d) as usize)
    }
}

/// What one header line says.
#[derive(Debug, Clone, Copy, PartialEq, Eq, Structural)]
pub enum HeaderLine {
    /// The blank line that ends the headers.
    End,
    /// `Content-Length` (in any letter case) with a size.
    Length(usize),
    /// Any other header, or a length that cannot be read.
    Other,
}

/// What a header line says: blank once its line breaks are taken off; a
/// length where the name before the first `:` is `content-length` in any
/// case and the value, trimmed, reads as a size; anything else otherwise.
pub open spec fn header_of(line: Seq<char>) -> HeaderLine {
    let s = without_line_end(line);
    if s.len() == 0 {
        HeaderLine::End
    } else {
        match first_index_of(s, ':') {
            None => HeaderLine::Other,
            Some(k) => if ascii_lower(s.take(k)) == "content-length"@ {
                match size_of_text(trim(s.skip(k + 1))) {
                    Some(n) => HeaderLine::Length(n),
                    None => HeaderLine::Other,
                }
            } else {
                HeaderLine::Other
            },
        }
    }
}

fn size_of(t: &[char]) -> (r: Option<usize>)
    ensures
        r == size_of_text(t@),
{
    let start: usize = if t.len() > 0 && t[0] == '+' { 1 } else { 0 };
    let ghost d = if t@.len() > 0 && t@[0] == '+' { t@.drop_first() } else { t@ };
    assert(d =~= t@.skip(start as int));
    if start == t.len() {
        return None;
    }
    let mut v: usize = 0;
    let mut over = false;
    let mut i: usize = start;
    assert(d.take(0) =~= Seq::<char>::empty());
    while i < t.len()
        invariant
            start <= i <= t@.len(),
            start == (if t@.len() > 0 && t@[0] == '+' { 1usize } else { 0usize }),
            d == t@.skip(start as int),
            forall|k: int| 0 <= k < i - start ==> '0' <= #[trigger] d[k] && d[k] <= '9',
            !over ==> v == digits_value(d.take(i - start)),
            over ==> digits_value(d.take(i - start)) > usize::MAX,
        decreases t@.len() - i,
    {
        let c = t[i];
        assert(d[i - start] == c);
        if !('0' <= c && c <= '9') {
            let ghost j: int = i - start;
            assert(0 <= j < d.len() && d[j] == c);
            assert(!all_digits(d));
            assert(size_of_text(t@) is None) by {
                let dd = if t@.len() > 0 && t@[0] == '+' { t@.drop_first() } else { t@ };
                assert(dd =~= d);
            }
            return None;
        }
        let dig = (c as u32 - '0' as u32) as usize;
        assert(d.take(i - start + 1).drop_last() =~= d.take(i - start));
        assert(d.take(i - start + 1).last() == c);
        if !over {
            if v > (usize::MAX - dig) / 10 {
                over = true;
                assert(v * 10 + dig > usize::MAX) by (nonlinear_arith)
                    requires
                        v > (usize::MAX - dig) / 10,
                        dig <= 9;
            } else {
                assert(v * 10 + dig <= usize::MAX) by (nonlinear_arith)
                    requires
                        v <= (usize::MAX - dig) / 10,
                        dig <= 9;
                v = v * 10 + dig;
            }
        }
        i += 1;
    }
    assert(d.take(i - start) =~= d);
    if over {
        None
    } else {
        Some(v)
    }
}

/// What a header line read from a language server says.
pub fn header_line(line: &str) -> (r: HeaderLine)
    ensures
        r == header_of(line@),
{
    let cs = chars_of(line);
    let mut n = cs.len();
    assert(cs@.take(n as int) =~= cs@);
    while n > 0 && (cs[n - 1] == '\r' || cs[n - 1] == '\n')
        invariant
            n <= cs@.len(),
            without_line_end(cs@) == without_line_end(cs@.take(n as int)),
        decreases n,
    {
        assert(cs@.take(n as int).drop_last() =~= cs@.take(n - 1));
        n -= 1;
    }
    let s = vstd::slice::slice_to_vec(vstd::slice::slice_subrange(cs.as_slice(), 0, n));
    assert(s@ =~= cs@.take(n as int));
    if s.len() == 0 {
        return HeaderLine::End;
    }
    proof { crate::text::lemma_first_index_of(s@, ':'); }
    match find_char(s.as_slice(), ':') {
        None => HeaderLine::Other,
        Some(k) => {
            let head = vstd::slice::slice_subrange(s.as_slice(), 0, k);
            assert(head@ =~= s@.take(k as int));
            let name = ascii_lowercase(head);
            let want = chars_of("content-length");
            if chars_eq(name.as_slice(), want.as_slice()) {
                let rest = vstd::slice::slice_subrange(s.as_slice(), k + 1, s.len());
                assert(rest@ =~= s@.skip(k + 1));
                let value = trim_chars(rest);
                match size_of(value.as_slice()) {
                    Some(size) => HeaderLine::Length(size),
                    None => HeaderLine::Other,
                }
            } else {
                HeaderLine::Other
            }
        },
    }
}

/// What a message from a server is, by whether it has an id and a method.
#[derive(Debug, Clone, Copy, PartialEq, Eq, Structural)]
pub enum MessageKind {
    /// An id and a method: the server asks something of the client.
    ServerRequest,
    /// An id and no method: the answer to a request.
    Response,
    /// No id: a notification.
    Notification,
}

/// The kind of a message with (or without) an id and a method.
pub fn classify(has_id: bool, has_method: bool) -> (r: MessageKind)
    ensures
        r == if has_id && has_method { MessageKind::ServerRequest } else if has_id { MessageKind::Response } else { MessageKind::Notification },
{
    if has_id && has_method {
        MessageKind::ServerRequest
    } else if has_id {
        MessageKind::Response
    } else {
        MessageKind::Notification
    }
}

} // verus!
