//! How text is written to the terminal: colour, the severity column, and
//! wrapping prose to the width of a terminal.
use vstd::prelude::*;
use crate::findings::Severity;
use crate::text::{chars_of, concat, is_whitespace, is_ws, string_of};

verus! {

/// Whether output is coloured with ANSI escape sequences.
#[derive(Debug, Clone, Copy, PartialEq, Eq, Structural)]
pub struct Style {
    colour: bool,
}

impl Style {
    /// Whether this style colours its output.
    pub closed spec fn coloured(self) -> bool {
        self.colour
    }

    /// The style for standard output: coloured when colour is forced, or when
    /// the output is a terminal that understands escape sequences and colour
    /// is not suppressed.
    pub fn for_terminal(forced: bool, is_terminal: bool, suppressed: bool, understands_ansi: bool) -> (r: Style)
        ensures
            r.coloured() == (forced || (is_terminal && !suppressed && understands_ansi)),
    {
        Style { colour: forced || (is_terminal && !suppressed && understands_ansi) }
    }

    /// A style that never colours.
    pub fn plain() -> (r: Style)
        ensures
            !r.coloured(),
    {
        Style { colour: false }
    }

    /// `text` in the colour `code`, when this style colours.
    pub open spec fn painted(self, code: Seq<char>, text: Seq<char>) -> Seq<char> {
        if self.coloured() {
            "\x1b["@ + code + "m"@ + text + "\x1b[0m"@
        } else {
            text
        }
    }

    fn paint(self, code: &str, text: &str) -> (r: String)
        ensures
            r@ == self.painted(code@, text@),
    {
        if self.colour {
            let a = concat("\x1b[", code);
            let b = concat(a.as_str(), "m");
            let c = concat(b.as_str(), text);
            concat(c.as_str(), "\x1b[0m")
        } else {
            crate::text::owned(text)
        }
    }

    /// Faint text.
    pub fn dim(self, text: &str) -> (r: String)
        ensures
            r@ == self.painted("2"@, text@),
    {
        self.paint("2", text)
    }

    /// Bold text.
    pub fn bold(self, text: &str) -> (r: String)
        ensures
            r@ == self.painted("1"@, text@),
    {
        self.paint("1", text)
    }

    /// Text in the accent colour.
    pub fn accent(self, text: &str) -> (r: String)
        ensures
            r@ == self.painted("36"@, text@),
    {
        self.paint("36", text)
    }

    /// Text in the colour of a severity.
    pub fn severity(self, severity: Severity, text: &str) -> (r: String)
        ensures
            r@ == self.painted(severity_code(severity), text@),
    {
        let code = match severity {
            Severity::Critical => "1;31",
            Severity::High => "31",
            Severity::Medium => "33",
            Severity::Low => "36",
            Severity::Info => "2",
        };
        self.paint(code, text)
    }
}

/// The colour code of a severity.
pub open spec fn severity_code(s: Severity) -> Seq<char> {
    match s {
        Severity::Critical => "1;31"@,
        Severity::High => "31"@,
        Severity::Medium => "33"@,
        Severity::Low => "36"@,
        Severity::Info => "2"@,
    }
}

/// The word a severity is listed under, padded to four characters.
pub open spec fn severity_text(s: Severity) -> Seq<char> {
    match s {
        Severity::Critical => "crit"@,
        Severity::High => "high"@,
        Severity::Medium => "med "@,
        Severity::Low => "low "@,
        Severity::Info => "info"@,
    }
}

/// The word a severity is listed under; every one is four characters wide.
pub fn severity_word(severity: Severity) -> (r: &'static str)
    ensures
        r@ == severity_text(severity),
        r@.len() == 4,
{
    proof {
        reveal_strlit("crit");
        reveal_strlit("high");
        reveal_strlit("med ");
        reveal_strlit("low ");
        reveal_strlit("info");
    }
    match severity {
        Severity::Critical => "crit",
        Severity::High => "high",
        Severity::Medium => "med ",
        Severity::Low => "low ",
        Severity::Info => "info",
    }
}

/// The words of `s`: its maximal runs of characters that are not white
/// space, as `split_whitespace` yields them.
pub open spec fn words_of(s: Seq<char>) -> Seq<Seq<char>>
    decreases s.len(),
{
    if s.len() == 0 {
        Seq::empty()
    } else {
        let prev = words_of(s.drop_last());
        let c = s.last();
        if is_ws(c) {
            prev
        } else if s.len() > 1 && !is_ws(s.drop_last().last()) && prev.len() > 0 {
            prev.update(prev.len() - 1, prev.last().push(c))
        } else {
            prev.push(seq![c])
        }
    }
}

/// The width left for text after an indent of `indent`, never under twenty.
pub open spec fn wrap_limit(indent: nat) -> int {
    let w = if indent >= 80 { 0 } else { 80 - indent };
    if w < 20 { 20 } else { w }
}

/// `n` spaces.
pub open spec fn spaces(n: nat) -> Seq<char> {
    Seq::new(n, |i: int| ' ')
}

/// `words` laid out greedily: each word follows the previous one after a
/// space while the line stays within `limit` characters, and otherwise
/// starts a new line after `indent` spaces. Also the length of the last
/// line, not counting its indent.
pub open spec fn layout(words: Seq<Seq<char>>, indent: nat, limit: int) -> (Seq<char>, int)
    decreases words.len(),
{
    if words.len() == 0 {
        (Seq::empty(), 0)
    } else {
        let (out, line) = layout(words.drop_last(), indent, limit);
        let w = words.last();
        if line > 0 && line + 1 + w.len() > limit {
            (out.push('\n') + spaces(indent) + w, w.len() as int)
        } else if line > 0 {
            (out.push(' ') + w, line + 1 + w.len())
        } else {
            (out + w, w.len() as int)
        }
    }
}

/// A line of the layout never holds more than `limit` characters after its
/// indent, as long as no single word is longer than that.
pub proof fn lemma_layout_within_limit(words: Seq<Seq<char>>, indent: nat, limit: int)
    requires
        forall|k: int| 0 <= k < words.len() ==> (#[trigger] words[k]).len() <= limit,
    ensures
        0 <= layout(words, indent, limit).1 <= limit || words.len() == 0,
        words.len() == 0 ==> layout(words, indent, limit).1 == 0,
    decreases words.len(),
{
    if words.len() > 0 {
        assert forall|k: int| 0 <= k < words.drop_last().len() implies (#[trigger] words.drop_last()[k]).len() <= limit by {
            assert(words.drop_last()[k] == words[k]);
        }
        lemma_layout_within_limit(words.drop_last(), indent, limit);
        assert(words.last() == words[words.len() - 1]);
    }
}

fn words(s: &[char]) -> (r: Vec<Vec<char>>)
    ensures
        r@.map_values(|w: Vec<char>| w@) == words_of(s@),
{
    let mut out: Vec<Vec<char>> = Vec::new();
    let mut i: usize = 0;
    while i < s.len()
        invariant
            i <= s@.len(),
            out@.map_values(|w: Vec<char>| w@) == words_of(s@.take(i as int)),
        decreases s@.len() - i,
    {
        let ghost prev = out@.map_values(|w: Vec<char>| w@);
        assert(s@.take(i + 1).drop_last() == s@.take(i as int));
        assert(s@.take(i + 1).last() == s@[i as int]);
        let c = s[i];
        if is_whitespace(c) {
        } else if i > 0 && !is_whitespace(s[i - 1]) && out.len() > 0 {
            assert(s@.take(i as int).last() == s@[i - 1]);
            let k = out.len() - 1;
            let mut w = out.pop().unwrap();
            w.push(c);
            out.push(w);
            assert(out@.map_values(|w: Vec<char>| w@) =~= prev.update(k as int, prev[k as int].push(c)));
        } else {
            if i > 0 {
                assert(s@.take(i as int).last() == s@[i - 1]);
            }
            let mut w: Vec<char> = Vec::new();
            w.push(c);
            out.push(w);
            assert(out@.map_values(|w: Vec<char>| w@) =~= prev.push(seq![c]));
        }
        i += 1;
    }
    assert(s@.take(s@.len() as int) == s@);
    out
}

/// `text` wrapped to fit a terminal line after an indent of `indent`
/// spaces: words are kept whole and separated by one space, and a word that
/// would overrun the line starts the next one.
pub fn wrap(text: &str, indent: usize) -> (r: String)
    ensures
        r@ == layout(words_of(text@), indent as nat, wrap_limit(indent as nat)).0,
{
    let limit: usize = if indent >= 80 { 20 } else if 80 - indent < 20 { 20 } else { 80 - indent };
    assert(limit == wrap_limit(indent as nat));
    let cs = chars_of(text);
    let ws = words(cs.as_slice());
    let ghost wv = words_of(text@);
    let mut out: Vec<char> = Vec::new();
    let mut line: usize = 0;
    let mut i: usize = 0;
    while i < ws.len()
        invariant
            i <= ws@.len(),
            ws@.map_values(|w: Vec<char>| w@) == wv,
            limit == wrap_limit(indent as nat),
            limit <= 80,
            line <= limit || i == 0 || line == ws@[i - 1]@.len(),
            (out@, line as int) == layout(wv.take(i as int), indent as nat, limit as int),
        decreases ws@.len() - i,
    {
        assert(wv.take(i + 1).drop_last() == wv.take(i as int));
        assert(wv.take(i + 1).last() == ws@[i as int]@);
        let w = &ws[i];
        let len = w.len();
        let overrun = line > 0 && (line >= limit || len > limit - line - 1);
        if overrun {
            out.push('\n');
            let mut k: usize = 0;
            let ghost before = out@;
            while k < indent
                invariant
                    k <= indent,
                    out@ == before + spaces(k as nat),
                decreases indent - k,
            {
                out.push(' ');
                k += 1;
                assert(spaces(k as nat) =~= spaces((k - 1) as nat).push(' '));
            }
            line = 0;
        } else if line > 0 {
            out.push(' ');
            line += 1;
        }
        let mut j: usize = 0;
        let ghost before = out@;
        while j < len
            invariant
                j <= len,
                len == w@.len(),
                out@ == before + w@.take(j as int),
            decreases len - j,
        {
            out.push(w[j]);
            j += 1;
            assert(w@.take(j as int) == w@.take(j - 1).push(w@[j - 1]));
        }
        assert(w@.take(len as int) == w@);
        line = if overrun { len } else { line + len };
        i += 1;
    }
    assert(wv.take(ws@.len() as int) == wv);
    string_of(out.as_slice())
}

} // verus!
