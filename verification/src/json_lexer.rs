//! The lexer: raw text to an ordered token queue.
//!
//! Failure policy is *strict*: at the first malformed token the lexer stops,
//! and `parse_all` reports overall failure beside the tokens read so far.
//! The spec functions here define tokenization over `Seq<char>`; the
//! executable lexer is proved to follow them exactly.

use vstd::prelude::*;
use vstd::string::StrSliceExecFns;
use crate::json_impl::JsonToken;
use crate::json_impl::TokData;
use crate::json_impl::toks_data;
use crate::json_number::JsonNumber;
use crate::json_number::is_digit;
use crate::json_number::digit_val;
use crate::json_number::is_number_text;

verus! {

/// The whitespace the lexer skips: space, tab, newline, carriage return.
pub open spec fn is_ws(c: char) -> bool {
    c == ' ' || c == '\t' || c == '\n' || c == '\r'
}

/// First index at or after `i` holding a non-whitespace character.
pub open spec fn skip_ws(s: Seq<char>, i: int) -> int
    decreases s.len() - i
        when 0 <= i <= s.len()
{
    if i < s.len() && is_ws(s[i]) {
        skip_ws(s, i + 1)
    } else {
        i
    }
}

pub proof fn lemma_skip_ws(s: Seq<char>, i: int)
    requires
        0 <= i <= s.len(),
    ensures
        i <= skip_ws(s, i) <= s.len(),
        skip_ws(s, i) < s.len() ==> !is_ws(s[skip_ws(s, i)]),
    decreases s.len() - i,
{
    if i < s.len() && is_ws(s[i]) {
        lemma_skip_ws(s, i + 1);
    }
}

/// Value of a hexadecimal digit, or `-1` for any other character.
pub open spec fn hex_val(c: char) -> int {
    if is_digit(c) {
        digit_val(c)
    } else if 'a' as u32 <= c as u32 && c as u32 <= 'f' as u32 {
        c as u32 - 'a' as u32 + 10
    } else if 'A' as u32 <= c as u32 && c as u32 <= 'F' as u32 {
        c as u32 - 'A' as u32 + 10
    } else {
        -1
    }
}

pub open spec fn is_hex(c: char) -> bool {
    hex_val(c) >= 0
}

/// End of the run of at most four hexadecimal digits starting at `i`.
pub open spec fn hex4_end(s: Seq<char>, i: int) -> int {
    if !(i < s.len() && is_hex(s[i])) {
        i
    } else if !(i + 1 < s.len() && is_hex(s[i + 1])) {
        i + 1
    } else if !(i + 2 < s.len() && is_hex(s[i + 2])) {
        i + 2
    } else if !(i + 3 < s.len() && is_hex(s[i + 3])) {
        i + 3
    } else {
        i + 4
    }
}

/// Value of the four hexadecimal digits starting at `i`.
pub open spec fn hex4_val(s: Seq<char>, i: int) -> int {
    hex_val(s[i]) * 4096 + hex_val(s[i + 1]) * 256 + hex_val(s[i + 2]) * 16 + hex_val(s[i + 3])
}

/// A Unicode scalar value: any code point outside the surrogate range,
/// up to the last code point.
pub open spec fn is_scalar_code(u: u32) -> bool {
    (u < 0xD800 || u >= 0xE000) && u <= 0x10FFFF
}

/// What a `\u` escape starting at `i` (after the `u`) decodes to: the coded
/// character, or the replacement character when the escape is incomplete or
/// names a surrogate.
pub open spec fn unicode_escape_char(s: Seq<char>, i: int) -> char {
    if hex4_end(s, i) == i + 4 {
        let code = hex4_val(s, i) as u32;
        if is_scalar_code(code) {
            code as char
        } else {
            '\u{fffd}'
        }
    } else {
        '\u{fffd}'
    }
}

/// Decode one escape; `i` is the position after the backslash.  The result
/// holds the decoded character and the position after the escape.
pub open spec fn scan_escape(s: Seq<char>, i: int) -> Option<(char, int)> {
    if i >= s.len() {
        None
    } else {
        let c = s[i];
        if c == '"' {
            Some(('"', i + 1))
        } else if c == '\\' {
            Some(('\\', i + 1))
        } else if c == '/' {
            Some(('/', i + 1))
        } else if c == 'b' {
            Some(('\u{8}', i + 1))
        } else if c == 'f' {
            Some(('\u{c}', i + 1))
        } else if c == 'n' {
            Some(('\n', i + 1))
        } else if c == 'r' {
            Some(('\r', i + 1))
        } else if c == 't' {
            Some(('\t', i + 1))
        } else if c == 'u' {
            Some((unicode_escape_char(s, i + 1), hex4_end(s, i + 1)))
        } else {
            None
        }
    }
}

pub proof fn lemma_scan_escape(s: Seq<char>, i: int)
    requires
        0 <= i <= s.len(),
    ensures
        match scan_escape(s, i) {
            Some((c, j)) => i < j <= s.len(),
            None => true,
        },
{
}

/// Scan string content from `i` (after the opening quote) to the closing
/// quote, decoding escapes; fails on an unterminated string or an
/// unsupported escape.
pub open spec fn scan_string(s: Seq<char>, i: int) -> Option<(Seq<char>, int)>
    decreases s.len() - i
        when 0 <= i <= s.len()
{
    if i >= s.len() {
        None
    } else if s[i] == '"' {
        Some((Seq::empty(), i + 1))
    } else if s[i] == '\\' {
        match scan_escape(s, i + 1) {
            None => None,
            Some((c, j)) => {
                proof {
                    lemma_scan_escape(s, i + 1);
                }
                match scan_string(s, j) {
                    None => None,
                    Some((rest, k)) => Some((seq![c] + rest, k)),
                }
            },
        }
    } else {
        match scan_string(s, i + 1) {
            None => None,
            Some((rest, k)) => Some((seq![s[i]] + rest, k)),
        }
    }
}

pub proof fn lemma_scan_string(s: Seq<char>, i: int)
    requires
        0 <= i <= s.len(),
    ensures
        match scan_string(s, i) {
            Some((txt, j)) => i < j <= s.len(),
            None => true,
        },
    decreases s.len() - i,
{
    if i < s.len() && s[i] == '\\' {
        lemma_scan_escape(s, i + 1);
        match scan_escape(s, i + 1) {
            Some((c, j)) => lemma_scan_string(s, j),
            None => {},
        }
    } else if i < s.len() && s[i] != '"' {
        lemma_scan_string(s, i + 1);
    }
}

/// The characters the number scanner consumes greedily.
pub open spec fn is_number_char(c: char) -> bool {
    is_digit(c) || c == '.' || c == 'e' || c == 'E' || c == '+' || c == '-'
}

/// End of the greedy run of number characters starting at `i`.
pub open spec fn number_end(s: Seq<char>, i: int) -> int
    decreases s.len() - i
        when 0 <= i <= s.len()
{
    if i < s.len() && is_number_char(s[i]) {
        number_end(s, i + 1)
    } else {
        i
    }
}

pub proof fn lemma_number_end(s: Seq<char>, i: int)
    requires
        0 <= i <= s.len(),
    ensures
        i <= number_end(s, i) <= s.len(),
        forall|k: int| i <= k < number_end(s, i) ==> is_number_char(s[k]),
        number_end(s, i) < s.len() ==> !is_number_char(s[number_end(s, i)]),
    decreases s.len() - i,
{
    if i < s.len() && is_number_char(s[i]) {
        lemma_number_end(s, i + 1);
    }
}

/// An ASCII letter, as the keyword scanner consumes them.
pub open spec fn is_alpha(c: char) -> bool {
    ('a' as u32 <= c as u32 && c as u32 <= 'z' as u32) || ('A' as u32 <= c as u32 && c as u32
        <= 'Z' as u32)
}

/// End of the greedy run of ASCII letters starting at `i`.
pub open spec fn alpha_end(s: Seq<char>, i: int) -> int
    decreases s.len() - i
        when 0 <= i <= s.len()
{
    if i < s.len() && is_alpha(s[i]) {
        alpha_end(s, i + 1)
    } else {
        i
    }
}

pub proof fn lemma_alpha_end(s: Seq<char>, i: int)
    requires
        0 <= i <= s.len(),
    ensures
        i <= alpha_end(s, i) <= s.len(),
        forall|k: int| i <= k < alpha_end(s, i) ==> is_alpha(s[k]),
        alpha_end(s, i) < s.len() ==> !is_alpha(s[alpha_end(s, i)]),
    decreases s.len() - i,
{
    if i < s.len() && is_alpha(s[i]) {
        lemma_alpha_end(s, i + 1);
    }
}

/// Outcome of scanning for one token.
pub enum LexStep {
    /// Only whitespace remained.
    LexEnd,
    /// A malformed token begins at the scan position.
    LexFail,
    /// One token, and the position after it.
    LexTok(TokData, int),
}

/// Scan one token starting at `i0`, skipping whitespace first.  Dispatch is
/// on the first character: `"` begins a string; any digit, sign, dot or
/// exponent letter begins a number; `t`/`f` begin a keyword matched against
/// `true`/`false`; `n` one matched against `null`; the six structural
/// characters stand for themselves; anything else is malformed.
pub open spec fn next_token_at(s: Seq<char>, i0: int) -> LexStep {
    let i = skip_ws(s, i0);
    if i >= s.len() {
        LexStep::LexEnd
    } else {
        let c = s[i];
        if c == '"' {
            match scan_string(s, i + 1) {
                Some((txt, j)) => LexStep::LexTok(TokData::Text(txt), j),
                None => LexStep::LexFail,
            }
        } else if is_number_char(c) {
            let j = number_end(s, i);
            if is_number_text(s.subrange(i, j)) {
                LexStep::LexTok(TokData::Number(s.subrange(i, j)), j)
            } else {
                LexStep::LexFail
            }
        } else if c == 't' || c == 'f' {
            let j = alpha_end(s, i);
            let w = s.subrange(i, j);
            if w == seq!['t', 'r', 'u', 'e'] {
                LexStep::LexTok(TokData::Boolean(true), j)
            } else if w == seq!['f', 'a', 'l', 's', 'e'] {
                LexStep::LexTok(TokData::Boolean(false), j)
            } else {
                LexStep::LexFail
            }
        } else if c == 'n' {
            let j = alpha_end(s, i);
            if s.subrange(i, j) == seq!['n', 'u', 'l', 'l'] {
                LexStep::LexTok(TokData::Null, j)
            } else {
                LexStep::LexFail
            }
        } else if c == ',' {
            LexStep::LexTok(TokData::Comma, i + 1)
        } else if c == ':' {
            LexStep::LexTok(TokData::Colon, i + 1)
        } else if c == '{' {
            LexStep::LexTok(TokData::LeftBrace, i + 1)
        } else if c == '}' {
            LexStep::LexTok(TokData::RightBrace, i + 1)
        } else if c == '[' {
            LexStep::LexTok(TokData::LeftBracket, i + 1)
        } else if c == ']' {
            LexStep::LexTok(TokData::RightBracket, i + 1)
        } else {
            LexStep::LexFail
        }
    }
}

pub proof fn lemma_next_token_at(s: Seq<char>, i: int)
    requires
        0 <= i <= s.len(),
    ensures
        match next_token_at(s, i) {
            LexStep::LexTok(t, j) => i < j <= s.len(),
            LexStep::LexEnd => skip_ws(s, i) == s.len(),
            LexStep::LexFail => skip_ws(s, i) < s.len(),
        },
{
    lemma_skip_ws(s, i);
    let k = skip_ws(s, i);
    if k < s.len() {
        let c = s[k];
        if c == '"' {
            lemma_scan_string(s, k + 1);
        } else if is_number_char(c) {
            lemma_number_end(s, k);
        } else if c == 't' || c == 'f' || c == 'n' {
            lemma_alpha_end(s, k);
            if alpha_end(s, k) == k {
                assert(s.subrange(k, k).len() == 0);
            }
        }
    }
}

/// The token stream from `i` on, with a success flag: `false` when the scan
/// stopped at a malformed token, in which case the tokens before it are
/// still reported.
pub open spec fn tokens_from(s: Seq<char>, i: int) -> (Seq<TokData>, bool)
    decreases s.len() - i
        when 0 <= i <= s.len()
{
    match next_token_at(s, i) {
        LexStep::LexEnd => (Seq::empty(), true),
        LexStep::LexFail => (Seq::empty(), false),
        LexStep::LexTok(t, j) => {
            proof {
                lemma_next_token_at(s, i);
            }
            let (rest, ok) = tokens_from(s, j);
            (seq![t] + rest, ok)
        },
    }
}

/// Tokenization of a whole text.
pub open spec fn spec_tokenize(s: Seq<char>) -> (Seq<TokData>, bool) {
    tokens_from(s, 0)
}

/// Relies on `char::from_u32`: `Some` exactly for Unicode scalar values
/// (code points outside the surrogate range, at most 0x10FFFF), holding the
/// character with exactly that code point.
#[verifier::external_body]
fn char_from_u32(u: u32) -> (r: Option<char>)
    ensures
        match r {
            Some(c) => is_scalar_code(u) && c as u32 == u,
            None => !is_scalar_code(u),
        },
{
    char::from_u32(u)
}

/// The lexer: a borrowed text and the current position, as a character
/// index.  It scans left to right with one-character lookahead.
pub struct JsonLexer<'a> {
    input: &'a str,
    pos: usize,
}

impl<'a> JsonLexer<'a> {
    /// The characters being scanned.
    pub closed spec fn spec_input(&self) -> Seq<char> {
        self.input@
    }

    /// The current position.
    pub closed spec fn spec_pos(&self) -> int {
        self.pos as int
    }

    /// Well-formed: the position lies within the input.
    pub open spec fn wf(&self) -> bool {
        0 <= self.spec_pos() <= self.spec_input().len()
    }

    pub fn new(input: &'a str) -> (r: JsonLexer<'a>)
        ensures
            r.wf(),
            r.spec_input() == input@,
            r.spec_pos() == 0,
    {
        JsonLexer { input, pos: 0 }
    }

    /// The character at the current position, if any.
    pub fn peek_char(&self) -> (r: Option<char>)
        requires
            self.wf(),
        ensures
            match r {
                Some(c) => self.spec_pos() < self.spec_input().len() && c == self.spec_input()[
                    self.spec_pos()
                ],
                None => self.spec_pos() == self.spec_input().len(),
            },
    {
        if self.pos < self.input.unicode_len() {
            Some(self.input.get_char(self.pos))
        } else {
            None
        }
    }

    /// Step over the current character, which must be `c`.
    pub fn move_to_next(&mut self, c: char)
        requires
            old(self).wf(),
            old(self).spec_pos() < old(self).spec_input().len(),
            old(self).spec_input()[old(self).spec_pos()] == c,
        ensures
            final(self).wf(),
            final(self).spec_input() == old(self).spec_input(),
            final(self).spec_pos() == old(self).spec_pos() + 1,
    {
        // the character count is itself a usize, so the position below it
        // can step up without overflowing
        let _ = self.input.unicode_len();
        self.pos = self.pos + 1;
    }

    /// Read one hexadecimal digit, if one stands at the current position.
    fn read_hex(&mut self) -> (r: Option<u32>)
        requires
            old(self).wf(),
        ensures
            final(self).wf(),
            final(self).spec_input() == old(self).spec_input(),
            match r {
                Some(h) => {
                    &&& old(self).spec_pos() < old(self).spec_input().len()
                    &&& is_hex(old(self).spec_input()[old(self).spec_pos()])
                    &&& h == hex_val(old(self).spec_input()[old(self).spec_pos()])
                    &&& h < 16
                    &&& final(self).spec_pos() == old(self).spec_pos() + 1
                },
                None => {
                    &&& (old(self).spec_pos() == old(self).spec_input().len() || !is_hex(
                        old(self).spec_input()[old(self).spec_pos()],
                    ))
                    &&& final(self).spec_pos() == old(self).spec_pos()
                },
            },
    {
        match self.peek_char() {
            Some(c) => {
                let u = c as u32;
                if 48 <= u && u <= 57 {
                    self.move_to_next(c);
                    Some(u - 48)
                } else if 97 <= u && u <= 102 {
                    self.move_to_next(c);
                    Some(u - 97 + 10)
                } else if 65 <= u && u <= 70 {
                    self.move_to_next(c);
                    Some(u - 65 + 10)
                } else {
                    None
                }
            },
            None => None,
        }
    }

    /// Decode one escape sequence; the position stands at the backslash.  On
    /// failure the position moves back to the backslash.
    pub fn handle_escape(&mut self) -> (r: Option<char>)
        requires
            old(self).wf(),
            old(self).spec_pos() < old(self).spec_input().len(),
            old(self).spec_input()[old(self).spec_pos()] == '\\',
        ensures
            final(self).wf(),
            final(self).spec_input() == old(self).spec_input(),
            match scan_escape(old(self).spec_input(), old(self).spec_pos() + 1) {
                Some((c, j)) => r == Some(c) && final(self).spec_pos() == j,
                None => r is None && final(self).spec_pos() == old(self).spec_pos(),
            },
    {
        let ghost s = self.spec_input();
        let start = self.pos;
        self.move_to_next('\\');
        match self.peek_char() {
            Some(c) => {
                if c == '"' || c == '\\' || c == '/' {
                    self.move_to_next(c);
                    Some(c)
                } else if c == 'b' {
                    self.move_to_next(c);
                    Some('\u{8}')
                } else if c == 'f' {
                    self.move_to_next(c);
                    Some('\u{c}')
                } else if c == 'n' {
                    self.move_to_next(c);
                    Some('\n')
                } else if c == 'r' {
                    self.move_to_next(c);
                    Some('\r')
                } else if c == 't' {
                    self.move_to_next(c);
                    Some('\t')
                } else if c == 'u' {
                    self.move_to_next(c);
                    let ghost base = self.spec_pos();
                    let h0 = match self.read_hex() {
                        Some(h) => h,
                        None => {
                            return Some('\u{fffd}');
                        },
                    };
                    let h1 = match self.read_hex() {
                        Some(h) => h,
                        None => {
                            return Some('\u{fffd}');
                        },
                    };
                    let h2 = match self.read_hex() {
                        Some(h) => h,
                        None => {
                            return Some('\u{fffd}');
                        },
                    };
                    let h3 = match self.read_hex() {
                        Some(h) => h,
                        None => {
                            return Some('\u{fffd}');
                        },
                    };
                    let code: u32 = h0 * 4096 + h1 * 256 + h2 * 16 + h3;
                    proof {
                        assert(code == hex4_val(s, base));
                        assert(hex4_end(s, base) == base + 4);
                    }
                    match char_from_u32(code) {
                        Some(d) => {
                            proof {
                                vstd::utf8::char_u32_cast(d, code);
                            }
                            Some(d)
                        },
                        None => Some('\u{fffd}'),
                    }
                } else {
                    self.pos = start;
                    None
                }
            },
            None => {
                self.pos = start;
                None
            },
        }
    }

    /// Scan one string literal; the position stands at the opening quote.
    /// On failure the position moves back to the opening quote.
    pub fn handle_string(&mut self) -> (r: Option<JsonToken>)
        requires
            old(self).wf(),
            old(self).spec_pos() < old(self).spec_input().len(),
            old(self).spec_input()[old(self).spec_pos()] == '"',
        ensures
            final(self).wf(),
            final(self).spec_input() == old(self).spec_input(),
            match scan_string(old(self).spec_input(), old(self).spec_pos() + 1) {
                Some((txt, j)) => (r matches Some(tok) && tok@ == TokData::Text(txt)) && final(self).spec_pos() == j,
                None => r is None && final(self).spec_pos() == old(self).spec_pos(),
            },
    {
        let ghost s = self.spec_input();
        let start = self.pos;
        let ghost start0 = self.spec_pos();
        self.move_to_next('"');
        let mut content: Vec<char> = Vec::new();
        loop
            invariant
                self.wf(),
                self.spec_input() == s,
                s == old(self).spec_input(),
                start0 == old(self).spec_pos(),
                start as int == start0,
                start0 + 1 <= self.spec_pos() <= s.len(),
                0 <= start0 < s.len(),
                match scan_string(s, self.spec_pos()) {
                    Some((rest, j)) => scan_string(s, start0 + 1) == Some::<(Seq<char>, int)>(
                        (content@ + rest, j),
                    ),
                    None => scan_string(s, start0 + 1) is None,
                },
            decreases s.len() - self.spec_pos(),
        {
            match self.peek_char() {
                Some(c) => {
                    if c == '"' {
                        self.move_to_next(c);
                        proof {
                            assert(content@ + Seq::<char>::empty() =~= content@);
                        }
                        return Some(JsonToken::Text(crate::json_basic::chars_to_string(&content)));
                    } else if c == '\\' {
                        let ghost p = self.spec_pos();
                        proof {
                            lemma_scan_escape(s, p + 1);
                        }
                        match self.handle_escape() {
                            Some(d) => {
                                proof {
                                    let j = scan_escape(s, p + 1).unwrap().1;
                                    match scan_string(s, j) {
                                        Some((rest2, k)) => {
                                            assert(content@ + (seq![d] + rest2) =~= content@.push(
                                                d,
                                            ) + rest2);
                                        },
                                        None => {},
                                    }
                                }
                                content.push(d);
                            },
                            None => {
                                self.pos = start;
                                return None;
                            },
                        }
                    } else {
                        let ghost p = self.spec_pos();
                        self.move_to_next(c);
                        proof {
                            match scan_string(s, p + 1) {
                                Some((rest2, k)) => {
                                    assert(content@ + (seq![c] + rest2) =~= content@.push(c)
                                        + rest2);
                                },
                                None => {},
                            }
                        }
                        content.push(c);
                    }
                },
                None => {
                    self.pos = start;
                    return None;
                },
            }
        }
    }

    /// Scan one number literal beginning with `c`; the position stands at
    /// `c`.  The greedily consumed run must satisfy the number grammar; on
    /// failure the position moves back to the start of the run.
    pub fn handle_number(&mut self, c: char) -> (r: Option<JsonToken>)
        requires
            old(self).wf(),
            old(self).spec_pos() < old(self).spec_input().len(),
            old(self).spec_input()[old(self).spec_pos()] == c,
            is_number_char(c),
        ensures
            final(self).wf(),
            final(self).spec_input() == old(self).spec_input(),
            ({
                let s = old(self).spec_input();
                let start = old(self).spec_pos();
                let j = number_end(s, start);
                if is_number_text(s.subrange(start, j)) {
                    (r matches Some(tok) && tok@ == TokData::Number(s.subrange(start, j)))
                        && final(self).spec_pos() == j
                } else {
                    r is None && final(self).spec_pos() == start
                }
            }),
    {
        let ghost s = self.spec_input();
        let start = self.pos;
        let ghost start0 = self.spec_pos();
        let mut buf: Vec<char> = Vec::new();
        proof {
            assert(buf@ =~= s.subrange(start0, start0));
        }
        loop
            invariant
                self.wf(),
                self.spec_input() == s,
                start as int == start0,
                0 <= start0 <= self.spec_pos() <= s.len(),
                buf@ =~= s.subrange(start0, self.spec_pos()),
                number_end(s, start0) == number_end(s, self.spec_pos()),
                forall|k: int| start0 <= k < self.spec_pos() ==> is_number_char(s[k]),
            ensures
                self.wf(),
                self.spec_input() == s,
                self.spec_pos() == number_end(s, start0),
                buf@ =~= s.subrange(start0, number_end(s, start0)),
            decreases s.len() - self.spec_pos(),
        {
            match self.peek_char() {
                Some(c2) => {
                    let u = c2 as u32;
                    let numeric = (48 <= u && u <= 57) || c2 == '.' || c2 == 'e' || c2 == 'E'
                        || c2 == '+' || c2 == '-';
                    if numeric {
                        let ghost p = self.spec_pos();
                        self.move_to_next(c2);
                        proof {
                            assert(s.subrange(start0, p + 1) =~= s.subrange(start0, p).push(
                                s[p],
                            ));
                        }
                        buf.push(c2);
                    } else {
                        break;
                    }
                },
                None => {
                    break;
                },
            }
        }
        let text = crate::json_basic::chars_to_string(&buf);
        match JsonNumber::new(text) {
            Some(num) => Some(JsonToken::Number(num)),
            None => {
                self.pos = start;
                None
            },
        }
    }

    /// Scan a keyword matched against `true`/`false`, beginning with `c`.
    pub fn handle_boolean(&mut self, c: char) -> (r: Option<JsonToken>)
        requires
            old(self).wf(),
            old(self).spec_pos() < old(self).spec_input().len(),
            old(self).spec_input()[old(self).spec_pos()] == c,
            c == 't' || c == 'f',
        ensures
            final(self).wf(),
            final(self).spec_input() == old(self).spec_input(),
            ({
                let s = old(self).spec_input();
                let start = old(self).spec_pos();
                let j = alpha_end(s, start);
                let w = s.subrange(start, j);
                if w == seq!['t', 'r', 'u', 'e'] {
                    (r matches Some(tok) && tok@ == TokData::Boolean(true)) && final(self).spec_pos() == j
                } else if w == seq!['f', 'a', 'l', 's', 'e'] {
                    (r matches Some(tok) && tok@ == TokData::Boolean(false)) && final(self).spec_pos() == j
                } else {
                    r is None && final(self).spec_pos() == start
                }
            }),
    {
        let ghost s = self.spec_input();
        let start = self.pos;
        let buf = self.scan_word();
        if buf.len() == 4 && *buf.get(0).unwrap() == 't' && *buf.get(1).unwrap() == 'r'
            && *buf.get(2).unwrap() == 'u' && *buf.get(3).unwrap() == 'e' {
            proof {
                assert(buf@ =~= seq!['t', 'r', 'u', 'e']);
            }
            Some(JsonToken::Boolean(true))
        } else if buf.len() == 5 && *buf.get(0).unwrap() == 'f' && *buf.get(1).unwrap() == 'a'
            && *buf.get(2).unwrap() == 'l' && *buf.get(3).unwrap() == 's' && *buf.get(4).unwrap()
            == 'e' {
            proof {
                assert(buf@ =~= seq!['f', 'a', 'l', 's', 'e']);
            }
            Some(JsonToken::Boolean(false))
        } else {
            proof {
                assert(buf@ != seq!['t', 'r', 'u', 'e']);
                assert(buf@ != seq!['f', 'a', 'l', 's', 'e']);
            }
            self.pos = start;
            None
        }
    }

    /// Scan a keyword matched against `null`.
    pub fn handle_null(&mut self) -> (r: Option<JsonToken>)
        requires
            old(self).wf(),
            old(self).spec_pos() < old(self).spec_input().len(),
            old(self).spec_input()[old(self).spec_pos()] == 'n',
        ensures
            final(self).wf(),
            final(self).spec_input() == old(self).spec_input(),
            ({
                let s = old(self).spec_input();
                let start = old(self).spec_pos();
                let j = alpha_end(s, start);
                if s.subrange(start, j) == seq!['n', 'u', 'l', 'l'] {
                    (r matches Some(tok) && tok@ == TokData::Null) && final(self).spec_pos() == j
                } else {
                    r is None && final(self).spec_pos() == start
                }
            }),
    {
        let ghost s = self.spec_input();
        let start = self.pos;
        let buf = self.scan_word();
        if buf.len() == 4 && *buf.get(0).unwrap() == 'n' && *buf.get(1).unwrap() == 'u'
            && *buf.get(2).unwrap() == 'l' && *buf.get(3).unwrap() == 'l' {
            proof {
                assert(buf@ =~= seq!['n', 'u', 'l', 'l']);
            }
            Some(JsonToken::Null)
        } else {
            proof {
                assert(buf@ != seq!['n', 'u', 'l', 'l']);
            }
            self.pos = start;
            None
        }
    }

    /// Greedily consume ASCII letters from the current position.
    fn scan_word(&mut self) -> (buf: Vec<char>)
        requires
            old(self).wf(),
        ensures
            final(self).wf(),
            final(self).spec_input() == old(self).spec_input(),
            final(self).spec_pos() == alpha_end(old(self).spec_input(), old(self).spec_pos()),
            buf@ =~= old(self).spec_input().subrange(
                old(self).spec_pos(),
                final(self).spec_pos(),
            ),
    {
        let ghost s = self.spec_input();
        let ghost start0 = self.spec_pos();
        let mut buf: Vec<char> = Vec::new();
        proof {
            assert(buf@ =~= s.subrange(start0, start0));
        }
        loop
            invariant
                self.wf(),
                self.spec_input() == s,
                0 <= start0 <= self.spec_pos() <= s.len(),
                buf@ =~= s.subrange(start0, self.spec_pos()),
                alpha_end(s, start0) == alpha_end(s, self.spec_pos()),
            ensures
                self.wf(),
                self.spec_input() == s,
                self.spec_pos() == alpha_end(s, start0),
                buf@ =~= s.subrange(start0, alpha_end(s, start0)),
            decreases s.len() - self.spec_pos(),
        {
            match self.peek_char() {
                Some(c) => {
                    let u = c as u32;
                    if (97 <= u && u <= 122) || (65 <= u && u <= 90) {
                        let ghost p = self.spec_pos();
                        self.move_to_next(c);
                        proof {
                            assert(s.subrange(start0, p + 1) =~= s.subrange(start0, p).push(
                                s[p],
                            ));
                        }
                        buf.push(c);
                    } else {
                        break;
                    }
                },
                None => {
                    break;
                },
            }
        }
        buf
    }

    /// Scan the token that begins with the non-whitespace character `c` at
    /// the current position.
    pub fn handle_char(&mut self, c: char) -> (r: Option<JsonToken>)
        requires
            old(self).wf(),
            old(self).spec_pos() < old(self).spec_input().len(),
            old(self).spec_input()[old(self).spec_pos()] == c,
            !is_ws(c),
        ensures
            final(self).wf(),
            final(self).spec_input() == old(self).spec_input(),
            match next_token_at(old(self).spec_input(), old(self).spec_pos()) {
                LexStep::LexTok(t, j) => (r matches Some(tok) && tok@ == t) && final(self).spec_pos() == j,
                LexStep::LexFail => r is None && final(self).spec_pos() == old(self).spec_pos(),
                LexStep::LexEnd => false,
            },
    {
        let ghost s = self.spec_input();
        let ghost p = self.spec_pos();
        proof {
            assert(skip_ws(s, p) == p);
        }
        let u = c as u32;
        if c == '"' {
            self.handle_string()
        } else if (48 <= u && u <= 57) || c == '.' || c == 'e' || c == 'E' || c == '+' || c == '-' {
            self.handle_number(c)
        } else if c == 't' || c == 'f' {
            self.handle_boolean(c)
        } else if c == 'n' {
            self.handle_null()
        } else if c == ',' {
            self.move_to_next(c);
            Some(JsonToken::Comma)
        } else if c == ':' {
            self.move_to_next(c);
            Some(JsonToken::Colon)
        } else if c == '{' {
            self.move_to_next(c);
            Some(JsonToken::LeftBrace)
        } else if c == '}' {
            self.move_to_next(c);
            Some(JsonToken::RightBrace)
        } else if c == '[' {
            self.move_to_next(c);
            Some(JsonToken::LeftBracket)
        } else if c == ']' {
            self.move_to_next(c);
            Some(JsonToken::RightBracket)
        } else {
            None
        }
    }

    /// Scan the next token, skipping whitespace.  `None` means the input is
    /// exhausted or a malformed token begins at the final position; the two
    /// are told apart by `at_end`.
    pub fn next_token(&mut self) -> (r: Option<JsonToken>)
        requires
            old(self).wf(),
        ensures
            final(self).wf(),
            final(self).spec_input() == old(self).spec_input(),
            match next_token_at(old(self).spec_input(), old(self).spec_pos()) {
                LexStep::LexTok(t, j) => (r matches Some(tok) && tok@ == t) && final(self).spec_pos() == j,
                LexStep::LexEnd => r is None && final(self).spec_pos() == old(
                    self,
                ).spec_input().len(),
                LexStep::LexFail => r is None && final(self).spec_pos() == skip_ws(
                    old(self).spec_input(),
                    old(self).spec_pos(),
                ) && final(self).spec_pos() < old(self).spec_input().len(),
            },
    {
        let ghost s = self.spec_input();
        let ghost p0 = self.spec_pos();
        loop
            invariant
                self.wf(),
                self.spec_input() == s,
                0 <= p0 <= self.spec_pos() <= s.len(),
                skip_ws(s, p0) == skip_ws(s, self.spec_pos()),
            ensures
                self.wf(),
                self.spec_input() == s,
                self.spec_pos() == skip_ws(s, p0),
            decreases s.len() - self.spec_pos(),
        {
            match self.peek_char() {
                Some(c) => {
                    if c == ' ' || c == '\t' || c == '\n' || c == '\r' {
                        self.move_to_next(c);
                    } else {
                        break;
                    }
                },
                None => {
                    break;
                },
            }
        }
        proof {
            lemma_skip_ws(s, p0);
        }
        match self.peek_char() {
            Some(c) => self.handle_char(c),
            None => None,
        }
    }

    /// Has the scan consumed the whole input?
    pub fn at_end(&self) -> (r: bool)
        requires
            self.wf(),
        ensures
            r == (self.spec_pos() == self.spec_input().len()),
    {
        self.pos == self.input.unicode_len()
    }
}

/// Tokenize a whole text: the token queue, and a success flag that is
/// `false` exactly when a malformed token stopped the scan, in which case
/// the queue holds the tokens read before it.
pub fn parse_all(input: &str) -> (r: (Vec<JsonToken>, bool))
    ensures
        toks_data(r.0@) == spec_tokenize(input@).0,
        r.1 == spec_tokenize(input@).1,
{
    let mut lexer = JsonLexer::new(input);
    let mut tokens: Vec<JsonToken> = Vec::new();
    proof {
        assert(toks_data(tokens@) =~= Seq::<TokData>::empty());
    }
    loop
        invariant
            lexer.wf(),
            lexer.spec_input() == input@,
            spec_tokenize(input@).0 =~= toks_data(tokens@) + tokens_from(
                input@,
                lexer.spec_pos(),
            ).0,
            spec_tokenize(input@).1 == tokens_from(input@, lexer.spec_pos()).1,
        decreases input@.len() - lexer.spec_pos(),
    {
        let ghost p = lexer.spec_pos();
        proof {
            lemma_next_token_at(input@, p);
        }
        match lexer.next_token() {
            Some(tok) => {
                let ghost t = tok@;
                let ghost pre = tokens@;
                tokens.push(tok);
                proof {
                    assert(toks_data(pre.push(tok)) =~= toks_data(pre).push(t));
                    let (rest, ok) = tokens_from(input@, lexer.spec_pos());
                    assert(toks_data(pre) + (seq![t] + rest) =~= toks_data(pre).push(t) + rest);
                }
            },
            None => {
                let ok = lexer.at_end();
                proof {
                    assert(toks_data(tokens@) + Seq::<TokData>::empty() =~= toks_data(tokens@));
                }
                return (tokens, ok);
            },
        }
    }
}

} // verus!
