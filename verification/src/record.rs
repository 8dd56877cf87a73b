//! Parsing of record labels. A record label such as `a | { b | c } | d`
//! describes nested rows of cells; `<name>` at the front of a cell attaches
//! a port to it.

use vstd::prelude::*;
use crate::shapes::RecordDef;

verus! {

broadcast use vstd::std_specs::vec::axiom_spec_len;

/// Whether `c` has the Unicode White_Space property: what `str::trim`
/// strips at the ends.
pub open spec fn char_is_white_space(c: char) -> bool {
    ('\u{9}' <= c && c <= '\u{d}') || c == ' ' || c == '\u{85}' || c == '\u{a0}' || c
        == '\u{1680}' || ('\u{2000}' <= c && c <= '\u{200a}') || c == '\u{2028}' || c
        == '\u{2029}' || c == '\u{202f}' || c == '\u{205f}' || c == '\u{3000}'
}

/// The text without its leading whitespace.
pub open spec fn trim_front(s: Seq<char>) -> Seq<char>
    decreases s.len(),
{
    if s.len() > 0 && char_is_white_space(s.first()) {
        trim_front(s.drop_first())
    } else {
        s
    }
}

/// The text without its trailing whitespace.
pub open spec fn trim_back(s: Seq<char>) -> Seq<char>
    decreases s.len(),
{
    if s.len() > 0 && char_is_white_space(s.last()) {
        trim_back(s.drop_last())
    } else {
        s
    }
}

/// What `str::trim` returns: the text without its leading and trailing
/// whitespace.
pub open spec fn trimmed(s: Seq<char>) -> Seq<char> {
    trim_back(trim_front(s))
}

/// Relies on str::trim: strips leading and trailing Unicode whitespace.
#[verifier::external_body]
fn trim_str(s: &str) -> (r: &str)
    ensures
        r@ == trimmed(s@),
{
    s.trim()
}

/// The first position of a closing angle bracket in `s`, or `-1` when
/// there is none.
pub open spec fn first_close(s: Seq<char>) -> int
    decreases s.len(),
{
    if s.len() == 0 {
        -1
    } else if s[0] == '>' {
        0
    } else if first_close(s.drop_first()) == -1 {
        -1
    } else {
        1 + first_close(s.drop_first())
    }
}

/// What splitting one cell yields: its text and its optional port.
pub open spec fn spec_split_label(t0: Seq<char>) -> (Seq<char>, Option<Seq<char>>) {
    let t = trimmed(t0);
    if t.len() > 0 && t[0] == '<' && first_close(t) >= 1 {
        (trimmed(t.skip(first_close(t) + 1)), Some(t.subrange(1, first_close(t))))
    } else {
        (t, None)
    }
}

proof fn lemma_first_close(s: Seq<char>)
    ensures
        first_close(s) == -1 ==> forall|j: int| 0 <= j < s.len() ==> s[j] != '>',
        first_close(s) != -1 ==> {
            let p = first_close(s);
            &&& 0 <= p < s.len()
            &&& s[p] == '>'
            &&& forall|j: int| 0 <= j < p ==> s[j] != '>'
        },
    decreases s.len(),
{
    if s.len() > 0 {
        lemma_first_close(s.drop_first());
        let d = s.drop_first();
        if s[0] != '>' {
            assert forall|j: int| 1 <= j < s.len() implies s[j] == d[j - 1] by {}
        }
    }
}

/// One row of cells under construction: the text of the cell being read,
/// and the finished cells so far.
pub struct RecordParserFrame {
    pub label: String,
    pub arr: Vec<RecordDef>,
}

impl RecordParserFrame {
    pub fn new() -> (r: Self)
        ensures
            r.label@.len() == 0,
            r.arr@.len() == 0,
    {
        Self { label: String::new(), arr: Vec::new() }
    }

    /// Split a cell such as `<f0> text` into its text part and its port
    /// name; a cell without a leading `<...>` has no port.
    /// Split a cell such as `<f0> text` into its text part and its port
    /// name: a leading `<...>` names the port and the trimmed remainder is
    /// the text; a cell without one has no port.
    pub fn split_label_to_text_and_port(text: &str) -> (r: (String, Option<String>))
        ensures
            r.0@ == spec_split_label(text@).0,
            r.1 is Some <==> spec_split_label(text@).1 is Some,
            r.1 matches Some(p) ==> p@ == spec_split_label(text@).1->0,
    {
        proof {
            lemma_first_close(trimmed(text@));
        }
        let t = trim_str(text);
        let cs = crate::lexer::text_chars(t);
        let n = cs.len();
        if n > 0 && cs[0] == '<' {
            // Look for the closing '>' of the port name.
            let mut close: usize = 0;
            let mut i: usize = 1;
            while i < n
                invariant
                    n == cs@.len(),
                    cs@ == trimmed(text@),
                    1 <= i <= n,
                    close < n,
                    close == 0 ==> forall|j: int| 0 <= j < i ==> cs@[j] != '>',
                    close > 0 ==> close == first_close(cs@),
                decreases n - i,
            {
                if cs[i] == '>' && close == 0 {
                    proof {
                        lemma_first_close(cs@);
                        let p = first_close(cs@);
                        if p < i {
                            assert(cs@[p] != '>');
                        }
                        if p > i {
                            assert(cs@[i as int] != '>');
                        }
                    }
                    close = i;
                }
                i += 1;
            }
            proof {
                if close == 0 {
                    lemma_first_close(cs@);
                    if first_close(cs@) >= 1 {
                        assert(cs@[first_close(cs@)] != '>');
                    }
                }
            }
            if close > 0 {
                let mut port = String::new();
                let mut j: usize = 1;
                while j < close
                    invariant
                        close < n,
                        n == cs@.len(),
                        1 <= j <= close,
                        port@ == cs@.subrange(1, j as int),
                    decreases close - j,
                {
                    proof {
                        assert(cs@.subrange(1, j + 1) =~= cs@.subrange(1, j as int).push(
                            cs@[j as int],
                        ));
                    }
                    crate::lexer::append_char(&mut port, cs[j]);
                    j += 1;
                }
                let mut rest = String::new();
                let mut j: usize = close + 1;
                while j < n
                    invariant
                        close < n,
                        n == cs@.len(),
                        close + 1 <= j <= n,
                        rest@ == cs@.subrange(close + 1, j as int),
                    decreases n - j,
                {
                    proof {
                        assert(cs@.subrange(close + 1, j + 1) =~= cs@.subrange(
                            close + 1,
                            j as int,
                        ).push(cs@[j as int]));
                    }
                    crate::lexer::append_char(&mut rest, cs[j]);
                    j += 1;
                }
                proof {
                    assert(rest@ =~= cs@.skip(close as int + 1));
                    assert(port@ =~= cs@.subrange(1, close as int));
                }
                let text_part = trim_str(rest.as_str()).to_owned();
                return (text_part, Some(port));
            }
        }
        proof {
            if n == 0 {
                assert(cs@.subrange(1, 1) =~= cs@.subrange(1, 1));
            }
        }
        (t.to_owned(), None)
    }

    /// Close the cell being read: a cell with visible text becomes a text
    /// record holding its split text and port, a blank cell is dropped.
    pub fn finalize_label(&mut self)
        ensures
            trimmed(old(self).label@).len() == 0 ==> *final(self) == *old(self),
            trimmed(old(self).label@).len() > 0 ==> ({
                &&& final(self).label@.len() == 0
                &&& final(self).arr@.len() == old(self).arr@.len() + 1
                &&& final(self).arr@.drop_last() == old(self).arr@
                &&& (final(self).arr@.last() matches RecordDef::Text(t, p) && t@
                    == spec_split_label(old(self).label@).0 && (p is Some <==> spec_split_label(
                    old(self).label@,
                ).1 is Some) && (p matches Some(pp) ==> pp@ == spec_split_label(
                    old(self).label@,
                ).1->0))
            }),
    {
        let t = trim_str(self.label.as_str());
        if !t.is_empty() {
            let ret = Self::split_label_to_text_and_port(self.label.as_str());
            let text = RecordDef::Text(ret.0, ret.1);
            self.arr.push(text);
            self.label = String::new();
            proof {
                assert(final(self).arr@.drop_last() =~= old(self).arr@);
            }
        }
    }

    /// Close the whole row: the finished cells become an array record, and
    /// an empty row becomes an empty text cell. The cells kept so far stay
    /// in order, and a still-open cell with visible text joins them as one
    /// more text cell, split into its text and port.
    pub fn finalize_record(&mut self) -> (r: RecordDef)
        ensures
            final(self).arr@.len() == 0,
            final(self).label@.len() == 0 || final(self).label@ == old(self).label@,
            ({
                let had_cell = trimmed(old(self).label@).len() > 0;
                let count = old(self).arr@.len() + if had_cell {
                    1int
                } else {
                    0int
                };
                if count == 0 {
                    r matches RecordDef::Text(t, p) && t@.len() == 0 && p is None
                } else {
                    r matches RecordDef::Array(a) && a@.len() == count && a@.take(
                        old(self).arr@.len() as int,
                    ) == old(self).arr@ && (had_cell ==> (a@.last() matches RecordDef::Text(t, p)
                        && t@ == spec_split_label(old(self).label@).0 && (p is Some
                        <==> spec_split_label(old(self).label@).1 is Some) && (p matches Some(pp)
                        ==> pp@ == spec_split_label(old(self).label@).1->0)))
                }
            }),
    {
        self.finalize_label();
        proof {
            if trimmed(old(self).label@).len() == 0 {
                assert(self.arr@.take(old(self).arr@.len() as int) =~= old(self).arr@);
            } else {
                assert(self.arr@.take(old(self).arr@.len() as int) =~= old(self).arr@);
            }
        }
        let mut arr: Vec<RecordDef> = Vec::new();
        std::mem::swap(&mut arr, &mut self.arr);
        if arr.len() == 0 {
            RecordDef::Text(String::new(), None)
        } else {
            RecordDef::Array(arr)
        }
    }
}

/// The record-label parser: the characters of the label and the position of
/// the next character.
pub struct RecordParser {
    pub input: Vec<char>,
    pub pos: usize,
}

impl RecordParser {
    pub fn new(input: &str) -> (r: Self)
        ensures
            r.input@ == input@,
            r.pos == 0,
    {
        Self { input: crate::lexer::text_chars(input), pos: 0 }
    }

    /// Parse one row of the record: cells separated by `|`, with `{ ... }`
    /// opening a nested row. The row ends at `}` or at the end of the
    /// input. A label whose last character opens a nested row that never
    /// starts is a caller bug, which the precondition rules out.
    pub fn parse(&mut self) -> (r: RecordDef)
        requires
            old(self).pos < old(self).input@.len(),
            old(self).input@.last() != '{',
        ensures
            final(self).input == old(self).input,
            final(self).pos > old(self).pos,
            final(self).pos <= final(self).input@.len(),
        decreases old(self).input@.len() - old(self).pos,
    {
        let mut frame = RecordParserFrame::new();
        loop
            invariant
                self.input == old(self).input,
                self.pos < self.input@.len(),
                self.pos >= old(self).pos,
                self.input@.last() != '{',
            decreases self.input@.len() - self.pos,
        {
            proof {
                assert(self.input.len() == self.input@.len());
            }
            // Read one character.
            let ch = self.input[self.pos];

            match ch {
                '{' => {
                    self.pos += 1;
                    // Close the cell before the nested row.
                    frame.finalize_label();
                    proof {
                        assert(self.pos < self.input@.len());
                    }
                    // Parse the nested row.
                    let ret = self.parse();
                    frame.arr.push(ret);
                },
                '|' => {
                    // A new cell of this row.
                    self.pos += 1;
                    frame.finalize_label();
                },
                '}' => {
                    // This row is done.
                    self.pos += 1;
                    frame.finalize_label();
                    return frame.finalize_record();
                },
                _ => {
                    self.pos += 1;
                    // An ordinary character extends the current cell.
                    crate::lexer::append_char(&mut frame.label, ch);
                },
            }
            // Is the whole label consumed?
            if self.pos == self.input.len() {
                return frame.finalize_record();
            }
        }
    }
}

/// Parse a whole record label. The label must not be empty and must not end
/// in an unopened `{`; such labels are rejected upstream.
pub fn parse_record_string(label: &str) -> (r: RecordDef)
    requires
        label@.len() > 0,
        label@.last() != '{',
{
    let mut p = RecordParser::new(label);
    p.parse()
}

/// A textual rendering of a record definition, cells quoted and rows
/// bracketed, one entry per line.
pub fn print_record(rec: &RecordDef, indent: usize) -> (r: String)
    decreases *rec,
{
    let mut out = String::new();
    match rec {
        RecordDef::Text(label, port) => {
            crate::lexer::append_char(&mut out, '"');
            out.append(label.as_str());
            crate::lexer::append_char(&mut out, '"');
            crate::lexer::append_char(&mut out, '\n');
            if let Some(port) = port {
                crate::lexer::append_char(&mut out, '"');
                out.append(port.as_str());
                crate::lexer::append_char(&mut out, '"');
                crate::lexer::append_char(&mut out, '\n');
            }
        },
        RecordDef::Array(arr) => {
            let mut i: usize = 0;
            while i < indent
                invariant
                    i <= indent,
                decreases indent - i,
            {
                crate::lexer::append_char(&mut out, ' ');
                i += 1;
            }
            crate::lexer::append_char(&mut out, '[');
            crate::lexer::append_char(&mut out, '\n');
            let n = arr.len();
            let mut k: usize = 0;
            while k < n
                invariant
                    k <= n,
                    n == arr@.len(),
                    (*rec) matches RecordDef::Array(aa) && aa == *arr,
                decreases n - k,
            {
                let deeper = if indent < usize::MAX {
                    indent + 1
                } else {
                    indent
                };
                proof {
                    broadcast use vstd::std_specs::vec::axiom_vec_index_decreases;
                    assert(decreases_to!(*rec => rec->Array_0));
                    assert(rec->Array_0 == *arr);
                    assert(decreases_to!(*arr => arr[k as int]));
                    assert(decreases_to!(*rec => arr[k as int]));
                }
                let sub = print_record(&arr[k], deeper);
                out.append(sub.as_str());
                k += 1;
            }
            let mut i: usize = 0;
            while i < indent
                invariant
                    i <= indent,
                decreases indent - i,
            {
                crate::lexer::append_char(&mut out, ' ');
                i += 1;
            }
            crate::lexer::append_char(&mut out, ']');
            crate::lexer::append_char(&mut out, '\n');
        },
    }
    out
}

} // verus!
