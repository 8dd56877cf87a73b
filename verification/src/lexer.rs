//! The lexer for the Graphviz DOT file format: it turns the input text into
//! a stream of tokens. Keywords, punctuation, identifiers, numbers, quoted
//! strings and HTML-bracketed strings each form their own token kinds.

use vstd::prelude::*;

verus! {

broadcast use vstd::std_specs::vec::axiom_spec_len;

/// One token of a DOT file.
#[derive(Debug, Clone)]
pub enum Token {
    EOF,
    Identifier(String),
    GraphKW,
    NodeKW,
    EdgeKW,
    DigraphKW,
    StrictKW,
    SubgraphKW,
    Equal,
    Colon,
    Comma,
    Semicolon,
    ArrowRight,
    ArrowLine,
    OpenBracket,
    CloseBracket,
    HtmlStart,
    HtmlEnd,
    OpenBrace,
    CloseBrace,
    Error(usize),
}

impl Token {
    /// Tokens after which lexing may continue: anything but the end of the
    /// input and the error token.
    pub open spec fn is_good(&self) -> bool {
        !(self matches Token::EOF) && !(self matches Token::Error(_))
    }
}

/// Whether `c` counts as blank space between tokens.
pub open spec fn char_is_ws(c: char) -> bool {
    c == ' ' || c == '\t' || c == '\n' || c == '\r' || c == '\u{c}'
}

/// Whether `c` may start an identifier.
pub open spec fn char_is_alpha(c: char) -> bool {
    ('a' <= c && c <= 'z') || ('A' <= c && c <= 'Z')
}

/// Whether `c` is a decimal digit.
pub open spec fn char_is_digit(c: char) -> bool {
    '0' <= c && c <= '9'
}

/// Whether `c` may continue an identifier.
pub open spec fn char_is_ident(c: char) -> bool {
    char_is_alpha(c) || char_is_digit(c) || c == '_'
}

/// Whether `c` ends a line comment.
pub open spec fn char_is_ctrl(c: char) -> bool {
    c < ' ' || c == '\u{7f}'
}

/// What `char::is_numeric` returns: whether the character belongs to one of
/// the numeric Unicode general categories. The result depends on the
/// character alone.
pub uninterp spec fn numeric_char(c: char) -> bool;

/// Relies on char::is_numeric: true for the characters of the Unicode
/// number categories. The decimal digits are among them; the control
/// characters are not.
#[verifier::external_body]
fn is_numeric_char(c: char) -> (r: bool)
    ensures
        r == numeric_char(c),
        char_is_digit(c) ==> r,
        char_is_ctrl(c) ==> !r,
{
    c.is_numeric()
}

/// Relies on String::push: appends one character at the end.
#[verifier::external_body]
pub fn append_char(s: &mut String, c: char)
    ensures
        final(s)@ == old(s)@.push(c),
{
    s.push(c)
}

/// Relies on str::chars and Iterator::collect: the characters of the text,
/// in order. There are no more characters than input bytes, and a Rust
/// allocation holds fewer than `usize::MAX` bytes.
#[verifier::external_body]
pub fn text_chars(s: &str) -> (r: Vec<char>)
    ensures
        r@ == s@,
        r@.len() < usize::MAX,
{
    s.chars().collect()
}

fn is_ws(c: char) -> (r: bool)
    ensures
        r == char_is_ws(c),
{
    c == ' ' || c == '\t' || c == '\n' || c == '\r' || c == '\u{c}'
}

fn is_alpha(c: char) -> (r: bool)
    ensures
        r == char_is_alpha(c),
{
    ('a' <= c && c <= 'z') || ('A' <= c && c <= 'Z')
}

fn is_digit(c: char) -> (r: bool)
    ensures
        r == char_is_digit(c),
{
    '0' <= c && c <= '9'
}

fn is_ident(c: char) -> (r: bool)
    ensures
        r == char_is_ident(c),
{
    is_alpha(c) || is_digit(c) || c == '_'
}

fn is_ctrl(c: char) -> (r: bool)
    ensures
        r == char_is_ctrl(c),
{
    c < ' ' || c == '\u{7f}'
}

/// The DOT lexer: the input characters, the position one past the current
/// character, and the current character (`'\0'` once the input is spent).
#[derive(Debug, Clone)]
pub struct Lexer {
    pub input: Vec<char>,
    pub pos: usize,
    pub ch: char,
}

impl Lexer {
    /// The cursor stays inside the input.
    pub open spec fn wf(&self) -> bool {
        &&& self.pos <= self.input@.len()
        &&& self.input@.len() < usize::MAX
        &&& self.ch != '\u{0}' ==> self.pos >= 1
    }

    /// How much work is left: two ticks for each unread character and one
    /// for a current character that is not yet the end marker. Every token
    /// other than the end and error tokens spends at least one tick.
    pub open spec fn fuel(&self) -> int {
        2 * (self.input@.len() - self.pos) + if self.ch == '\u{0}' {
            0int
        } else {
            1int
        }
    }

    /// The characters being lexed.
    pub open spec fn text(&self) -> Seq<char> {
        self.input@
    }

    pub fn from_string(input: &str) -> (r: Self)
        ensures
            r.wf(),
            r.text() == input@,
    {
        let chars = text_chars(input);
        Lexer::new(chars)
    }

    pub fn new(input: Vec<char>) -> (r: Self)
        requires
            input@.len() < usize::MAX,
        ensures
            r.wf(),
            r.text() == input@,
    {
        let mut l = Self { input, pos: 0, ch: '\u{0}' };
        l.read_char();
        l
    }

    /// A rendering of the input up to the position of the error, with a
    /// caret marking the error column on its line. What the command line
    /// tool prints when a parse fails. The rendering replays the input from
    /// its first character on.
    pub fn print_error(&self) -> (r: String)
        requires
            self.wf(),
        ensures
            self.input@.len() == 0 ==> r@.len() == 0,
            self.input@.len() > 0 ==> r@.len() > 0 && r@[0] == self.input@[0],
    {
        let mut out = String::new();
        let mut found_loc = false;
        let mut since_last_line: usize = 0;
        let mut idx: usize = 0;
        let n = self.input.len();
        let mut i: usize = 0;
        // Walk every character of the file.
        while i < n
            invariant
                self.wf(),
                n == self.input@.len(),
                i <= n,
                idx <= i,
                since_last_line <= i,
                i == 0 ==> out@.len() == 0,
                i > 0 ==> out@.len() > 0 && out@[0] == self.input@[0],
            decreases n - i,
        {
            let ch = self.input[i];
            append_char(&mut out, ch);
            idx += 1;
            if idx == self.pos {
                found_loc = true;
            }
            // Go until the end of the line, but keep track of how many
            // spaces need to be emitted.
            if ch == '\n' {
                if found_loc {
                    append_char(&mut out, '\n');
                    proof {
                        assert(out@[0] == self.input@[0]);
                    }
                    // One space less, because 'pos' points one character
                    // past the error, and one more for the caret that
                    // replaces the last space.
                    let mut j: usize = 2;
                    while j < since_last_line
                        invariant
                            j >= 2,
                            self.wf(),
                            n == self.input@.len(),
                            out@.len() > 0,
                            out@[0] == self.input@[0],
                        decreases since_last_line - j,
                    {
                        append_char(&mut out, ' ');
                        j += 1;
                    }
                    append_char(&mut out, '^');
                    append_char(&mut out, '\n');
                    proof {
                        assert(n > 0);
                    }
                    return out;
                }
                since_last_line = 0;
            }
            if since_last_line < usize::MAX {
                since_last_line += 1;
            }
            i += 1;
        }
        out
    }

    pub fn has_next(&self) -> (r: bool)
        ensures
            r == (self.pos < self.input@.len()),
    {
        self.pos < self.input.len()
    }

    /// Step to the next character; at the end of the input the current
    /// character becomes the end marker and the position stays.
    pub fn read_char(&mut self)
        requires
            old(self).wf(),
        ensures
            final(self).wf(),
            final(self).input == old(self).input,
            old(self).pos < old(self).input@.len() ==> final(self).pos == old(self).pos + 1
                && final(self).ch == old(self).input@[old(self).pos as int],
            old(self).pos >= old(self).input@.len() ==> final(self).pos == old(self).pos
                && final(self).ch == '\u{0}',
            final(self).fuel() <= old(self).fuel(),
            (old(self).ch != '\u{0}' || old(self).pos < old(self).input@.len()) ==> final(
                self).fuel() < old(self).fuel(),
    {
        if !self.has_next() {
            self.ch = '\u{0}';
        } else {
            self.ch = self.input[self.pos];
            self.pos += 1;
        }
    }

    /// Skip blank space. Returns whether anything was skipped.
    pub fn skip_whitespace(&mut self) -> (changed: bool)
        requires
            old(self).wf(),
        ensures
            final(self).wf(),
            final(self).input == old(self).input,
            final(self).fuel() <= old(self).fuel(),
            changed ==> final(self).fuel() < old(self).fuel(),
            !changed ==> *final(self) == *old(self),
            !char_is_ws(final(self).ch),
    {
        let mut changed = false;
        while is_ws(self.ch)
            invariant
                self.wf(),
                self.input == old(self).input,
                self.fuel() <= old(self).fuel(),
                changed ==> self.fuel() < old(self).fuel(),
                !changed ==> *self == *old(self),
            decreases self.fuel(),
        {
            proof {
                assert(self.ch != '\u{0}');
            }
            self.read_char();
            changed = true;
        }
        changed
    }

    /// Skip one comment, either a starred block or a line comment. A lone
    /// slash is consumed as well. Returns whether anything was consumed.
    pub fn skip_comment(&mut self) -> (changed: bool)
        requires
            old(self).wf(),
        ensures
            final(self).wf(),
            final(self).input == old(self).input,
            final(self).fuel() <= old(self).fuel(),
            changed ==> final(self).fuel() < old(self).fuel(),
            !changed ==> *final(self) == *old(self),
    {
        let mut changed = false;
        if self.ch != '/' {
            return changed;
        }
        self.read_char();
        changed = true;

        if self.ch == '*' {
            let mut prev = '\u{0}';
            while self.has_next()
                invariant
                    changed,
                    self.wf(),
                    self.input == old(self).input,
                    self.fuel() < old(self).fuel(),
                decreases self.fuel(),
            {
                self.read_char();
                if prev == '*' && self.ch == '/' {
                    self.read_char();
                    return changed;
                }
                prev = self.ch;
            }
            return changed;
        }

        if self.ch == '/' {
            while self.has_next()
                invariant
                    changed,
                    self.wf(),
                    self.input == old(self).input,
                    self.fuel() < old(self).fuel(),
                decreases self.fuel(),
            {
                self.read_char();
                if is_ctrl(self.ch) {
                    self.read_char();
                    return changed;
                }
            }
        }
        changed
    }

    /// Read an identifier: letters, digits and underscores.
    pub fn read_identifier(&mut self) -> (r: String)
        requires
            old(self).wf(),
        ensures
            final(self).wf(),
            final(self).input == old(self).input,
            final(self).fuel() <= old(self).fuel(),
            char_is_ident(old(self).ch) ==> final(self).fuel() < old(self).fuel(),
            !char_is_ident(final(self).ch),
    {
        let mut result = String::new();
        while is_ident(self.ch)
            invariant
                self.wf(),
                self.input == old(self).input,
                self.fuel() <= old(self).fuel(),
                old(self).ch != '\u{0}' && self.fuel() == old(self).fuel() ==> *self == *old(
                    self,
                ),
            decreases self.fuel(),
        {
            proof {
                assert(self.ch != '\u{0}');
            }
            append_char(&mut result, self.ch);
            self.read_char();
        }
        result
    }

    /// Read a number: digits with at most one decimal point.
    pub fn read_number(&mut self) -> (r: String)
        requires
            old(self).wf(),
        ensures
            final(self).wf(),
            final(self).input == old(self).input,
            final(self).fuel() <= old(self).fuel(),
            (numeric_char(old(self).ch) || char_is_digit(old(self).ch) || old(self).ch == '.')
                ==> final(self).fuel() < old(self).fuel(),
    {
        let mut result = String::new();
        let mut period = false;
        let mut go = true;
        while go
            invariant
                self.wf(),
                self.input == old(self).input,
                self.fuel() <= old(self).fuel(),
                *self == *old(self) || self.fuel() < old(self).fuel(),
                period ==> self.fuel() < old(self).fuel(),
                (!go && *self == *old(self)) ==> !(numeric_char(old(self).ch) || char_is_digit(
                    old(self).ch,
                ) || old(self).ch == '.'),
            decreases self.fuel(), (if go {
                1int
            } else {
                0int
            }),
        {
            let numeric = is_numeric_char(self.ch);
            if numeric || self.ch == '.' {
                // Only allow one period in each number.
                let mut stop = false;
                if self.ch == '.' {
                    if !period {
                        period = true;
                    } else {
                        stop = true;
                    }
                }
                if stop {
                    go = false;
                } else {
                    proof {
                        assert(self.ch != '\u{0}');
                    }
                    append_char(&mut result, self.ch);
                    self.read_char();
                }
            } else {
                go = false;
            }
        }
        result
    }
}


/// Whether `name` spells the same characters as `kw`.
pub fn string_is(name: &String, kw: &str) -> (r: bool)
    ensures
        r == (name@ == kw@),
{
    *name == kw.to_owned()
}

impl Lexer {
    /// Read a quoted string. The opening quote is the current character;
    /// the token carries the text up to the closing quote, with `\n` and
    /// `\l` escapes turned into line breaks. An unterminated string gives
    /// the error token.
    pub fn read_string(&mut self) -> (tok: Token)
        requires
            old(self).wf(),
            old(self).ch == '"',
        ensures
            final(self).wf(),
            final(self).input == old(self).input,
            final(self).fuel() < old(self).fuel(),
    {
        let mut result = String::new();
        self.read_char();
        while self.ch != '"'
            invariant
                self.wf(),
                self.input == old(self).input,
                self.fuel() < old(self).fuel(),
            decreases self.fuel(),
        {
            // Handle escaping.
            if self.ch == '\\' {
                // Consume the escape character.
                self.read_char();
                self.ch = match self.ch {
                    'n' => '\n',
                    'l' => '\n',
                    _ => self.ch,
                }
            } else if self.ch == '\u{0}' {
                // Reached the end of the input without closing the string.
                return Token::Error(self.pos);
            }
            append_char(&mut result, self.ch);
            self.read_char();
        }
        Token::Identifier(result)
    }

    /// Read the inside of an HTML-bracketed string: everything up to the
    /// `>` that balances the opening `<`. An unterminated string gives the
    /// error token.
    pub fn next_token_html(&mut self) -> (tok: Token)
        requires
            old(self).wf(),
        ensures
            final(self).wf(),
            final(self).input == old(self).input,
            final(self).fuel() <= old(self).fuel(),
    {
        let mut result = String::new();
        let mut bracket_balance: usize = 1;
        loop
            invariant
                self.wf(),
                self.input == old(self).input,
                self.fuel() <= old(self).fuel(),
                1 <= bracket_balance,
                bracket_balance <= self.pos + 1,
                self.ch != '\u{0}' ==> bracket_balance <= self.pos,
            decreases self.fuel(),
        {
            if self.ch == '\u{0}' {
                // Reached the end of the input without closing the string.
                return Token::Error(self.pos);
            }
            if self.ch == '<' {
                bracket_balance += 1;
            } else if self.ch == '>' {
                if bracket_balance == 1 {
                    break;
                }
                bracket_balance -= 1;
            }
            append_char(&mut result, self.ch);
            self.read_char();
        }
        Token::Identifier(result)
    }

    /// The next token of the input: skip blanks and comments, then read one
    /// keyword, identifier, number, string or punctuation mark. At the end
    /// of the input the end token comes back, and on a character that fits
    /// nothing, the error token.
    pub fn next_token(&mut self) -> (tok: Token)
        requires
            old(self).wf(),
        ensures
            final(self).wf(),
            final(self).input == old(self).input,
            final(self).fuel() <= old(self).fuel(),
            tok.is_good() ==> final(self).fuel() < old(self).fuel(),
    {
        let tok: Token;
        let mut go = true;
        while go
            invariant
                self.wf(),
                self.input == old(self).input,
                self.fuel() <= old(self).fuel(),
            decreases self.fuel(), (if go {
                1int
            } else {
                0int
            }),
        {
            let c1 = self.skip_comment();
            let c2 = if c1 {
                false
            } else {
                self.skip_whitespace()
            };
            if !(c1 || c2) {
                go = false;
            }
        }
        match self.ch {
            '=' => {
                tok = Token::Equal;
            },
            ';' => {
                tok = Token::Semicolon;
            },
            ':' => {
                tok = Token::Colon;
            },
            '[' => {
                tok = Token::OpenBracket;
            },
            ']' => {
                tok = Token::CloseBracket;
            },
            '{' => {
                tok = Token::OpenBrace;
            },
            '}' => {
                tok = Token::CloseBrace;
            },
            ',' => {
                tok = Token::Comma;
            },
            '"' => {
                tok = self.read_string();
            },
            '<' => {
                tok = Token::HtmlStart;
            },
            '>' => {
                tok = Token::HtmlEnd;
            },
            '-' => {
                self.read_char();
                match self.ch {
                    '>' => {
                        tok = Token::ArrowRight;
                    },
                    '-' => {
                        tok = Token::ArrowLine;
                    },
                    _ => {
                        if is_digit(self.ch) {
                            let mut num = String::new();
                            let res = self.read_number();
                            append_char(&mut num, '-');
                            num.append(res.as_str());
                            tok = Token::Identifier(num);
                        } else {
                            tok = Token::Error(self.pos);
                        }
                    },
                }
            },
            '\u{0}' => {
                tok = Token::EOF;
            },
            _ => {
                if is_alpha(self.ch) {
                    let name = self.read_identifier();
                    if string_is(&name, "graph") {
                        return Token::GraphKW;
                    }
                    if string_is(&name, "node") {
                        return Token::NodeKW;
                    }
                    if string_is(&name, "edge") {
                        return Token::EdgeKW;
                    }
                    if string_is(&name, "digraph") {
                        return Token::DigraphKW;
                    }
                    if string_is(&name, "strict") {
                        return Token::StrictKW;
                    }
                    if string_is(&name, "subgraph") {
                        return Token::SubgraphKW;
                    }
                    return Token::Identifier(name);
                }
                if is_digit(self.ch) {
                    let num = self.read_number();
                    return Token::Identifier(num);
                }
                return Token::Error(self.pos);
            },
        }
        self.read_char();
        tok
    }
}

} // verus!
