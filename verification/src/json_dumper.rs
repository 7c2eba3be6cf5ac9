//! The dumper: a value tree to formatted text.
//!
//! Every non-empty object or array opens its bracket, then writes one
//! indented line per member, commas between members but not after the last,
//! and closes the bracket at the outer indentation; an empty object or
//! array renders as `{}`/`[]` on one line.  Numbers render as their stored
//! literal text, one fixed round-trip-safe rule.  When escaping is on,
//! the special and non-ASCII characters of string values are written as
//! backslash escapes (`\uXXXX` in the generic case); object keys are
//! written verbatim, as are string values with escaping off.

use vstd::prelude::*;
use vstd::string::StrSliceExecFns;
use crate::json_basic::JsonData;
use crate::json_basic::JsonNode;
use crate::json_basic::chars_to_string;
use crate::json_basic::lemma_entries_data;
use crate::json_basic::lemma_nodes_data;
use crate::json_basic::nodes_data;
use crate::json_basic::entries_data;

verus! {

/// One hexadecimal digit, lower case.
pub open spec fn hex_digit_char(d: int) -> char {
    if d == 0 {
        '0'
    } else if d == 1 {
        '1'
    } else if d == 2 {
        '2'
    } else if d == 3 {
        '3'
    } else if d == 4 {
        '4'
    } else if d == 5 {
        '5'
    } else if d == 6 {
        '6'
    } else if d == 7 {
        '7'
    } else if d == 8 {
        '8'
    } else if d == 9 {
        '9'
    } else if d == 10 {
        'a'
    } else if d == 11 {
        'b'
    } else if d == 12 {
        'c'
    } else if d == 13 {
        'd'
    } else if d == 14 {
        'e'
    } else {
        'f'
    }
}

/// The hexadecimal digits of `n`, most significant first, no padding.
pub open spec fn hex_seq(n: nat) -> Seq<char>
    decreases n,
{
    if n < 16 {
        seq![hex_digit_char(n as int)]
    } else {
        hex_seq(n / 16).push(hex_digit_char((n % 16) as int))
    }
}

/// The hexadecimal digits of `n`, zero-padded on the left to at least four.
pub open spec fn hex4_seq(n: nat) -> Seq<char> {
    let h = hex_seq(n);
    if h.len() >= 4 {
        h
    } else {
        Seq::new((4 - h.len()) as nat, |i: int| '0') + h
    }
}

/// How one character of a string value renders with escaping on.
pub open spec fn spec_escape_char(c: char) -> Seq<char> {
    if c == '"' {
        seq!['\\', '"']
    } else if c == '\\' {
        seq!['\\', '\\']
    } else if c == '\n' {
        seq!['\\', 'n']
    } else if c == '\r' {
        seq!['\\', 'r']
    } else if c == '\t' {
        seq!['\\', 't']
    } else if c == '\u{8}' {
        seq!['\\', 'b']
    } else if c == '\u{c}' {
        seq!['\\', 'f']
    } else if c == '/' {
        seq!['\\', '/']
    } else if c as u32 >= 128 {
        seq!['\\', 'u'] + hex4_seq(c as u32 as nat)
    } else {
        seq![c]
    }
}

/// How a whole string value renders with escaping on.
pub open spec fn spec_escape(s: Seq<char>) -> Seq<char>
    decreases s.len(),
{
    if s.len() == 0 {
        Seq::empty()
    } else {
        spec_escape_char(s[0]) + spec_escape(s.drop_first())
    }
}

/// `n` spaces.
pub open spec fn spec_indent(n: nat) -> Seq<char> {
    Seq::new(n, |i: int| ' ')
}

/// Nesting depth of a value: leaves are 0, a container is one above its
/// deepest member.
pub open spec fn spec_depth(v: JsonData) -> nat
    decreases v,
{
    match v {
        JsonData::Object(es) => 1 + spec_entries_depth(es),
        JsonData::Array(els) => 1 + spec_items_depth(els),
        _ => 0,
    }
}

pub open spec fn spec_items_depth(els: Seq<JsonData>) -> nat
    decreases els,
{
    if els.len() == 0 {
        0
    } else {
        let d0 = spec_depth(els[0]);
        let dr = spec_items_depth(els.drop_first());
        if d0 >= dr {
            d0
        } else {
            dr
        }
    }
}

pub open spec fn spec_entries_depth(es: Seq<(Seq<char>, JsonData)>) -> nat
    decreases es,
{
    if es.len() == 0 {
        0
    } else {
        let d0 = spec_depth(es[0].1);
        let dr = spec_entries_depth(es.drop_first());
        if d0 >= dr {
            d0
        } else {
            dr
        }
    }
}

pub proof fn lemma_items_depth(els: Seq<JsonData>)
    ensures
        forall|i: int| 0 <= i < els.len() ==> spec_depth(#[trigger] els[i]) <= spec_items_depth(
            els,
        ),
    decreases els.len(),
{
    if els.len() > 0 {
        lemma_items_depth(els.drop_first());
        assert forall|i: int| 0 <= i < els.len() implies spec_depth(#[trigger] els[i])
            <= spec_items_depth(els) by {
            if i > 0 {
                assert(els.drop_first()[i - 1] == els[i]);
            }
        }
    }
}

pub proof fn lemma_entries_depth(es: Seq<(Seq<char>, JsonData)>)
    ensures
        forall|i: int| 0 <= i < es.len() ==> spec_depth(#[trigger] es[i].1)
            <= spec_entries_depth(es),
    decreases es.len(),
{
    if es.len() > 0 {
        lemma_entries_depth(es.drop_first());
        assert forall|i: int| 0 <= i < es.len() implies spec_depth(#[trigger] es[i].1)
            <= spec_entries_depth(es) by {
            if i > 0 {
                assert(es.drop_first()[i - 1] == es[i]);
            }
        }
    }
}

/// The rendering of one value at indentation `cur`, with per-level indent
/// width `ind` and string escaping per `esc`.
pub open spec fn spec_dump_data(v: JsonData, ind: nat, esc: bool, cur: nat) -> Seq<char>
    decreases v,
{
    match v {
        JsonData::Null => seq!['n', 'u', 'l', 'l'],
        JsonData::Boolean(b) => if b {
            seq!['t', 'r', 'u', 'e']
        } else {
            seq!['f', 'a', 'l', 's', 'e']
        },
        JsonData::Number(t) => t,
        JsonData::Text(s) => seq!['"'] + (if esc {
            spec_escape(s)
        } else {
            s
        }) + seq!['"'],
        JsonData::Array(els) => if els.len() == 0 {
            seq!['[', ']']
        } else {
            seq!['[', '\n'] + spec_dump_items(els, ind, esc, (cur + ind) as nat) + spec_indent(cur)
                + seq![']']
        },
        JsonData::Object(es) => if es.len() == 0 {
            seq!['{', '}']
        } else {
            seq!['{', '\n'] + spec_dump_entries(es, ind, esc, (cur + ind) as nat) + spec_indent(
                cur,
            ) + seq!['}']
        },
    }
}

/// The member lines of an array: one indented line per element, a comma
/// after each but the last.
pub open spec fn spec_dump_items(els: Seq<JsonData>, ind: nat, esc: bool, cur: nat) -> Seq<char>
    decreases els,
{
    if els.len() == 0 {
        Seq::empty()
    } else {
        spec_indent(cur) + spec_dump_data(els[0], ind, esc, cur) + (if els.len() > 1 {
            seq![',', '\n']
        } else {
            seq!['\n']
        }) + spec_dump_items(els.drop_first(), ind, esc, cur)
    }
}

/// The member lines of an object: one indented `"key": value` line per
/// entry, a comma after each but the last.  Keys render verbatim.
pub open spec fn spec_dump_entries(
    es: Seq<(Seq<char>, JsonData)>,
    ind: nat,
    esc: bool,
    cur: nat,
) -> Seq<char>
    decreases es,
{
    if es.len() == 0 {
        Seq::empty()
    } else {
        spec_indent(cur) + seq!['"'] + es[0].0 + seq!['"', ':', ' '] + spec_dump_data(
            es[0].1,
            ind,
            esc,
            cur,
        ) + (if es.len() > 1 {
            seq![',', '\n']
        } else {
            seq!['\n']
        }) + spec_dump_entries(es.drop_first(), ind, esc, cur)
    }
}

pub proof fn lemma_dump_items_step(els: Seq<JsonData>, ind: nat, esc: bool, cur: nat, idx: int)
    requires
        0 <= idx < els.len(),
    ensures
        spec_dump_items(els.skip(idx), ind, esc, cur) == spec_indent(cur) + spec_dump_data(
            els[idx],
            ind,
            esc,
            cur,
        ) + (if idx + 1 < els.len() {
            seq![',', '\n']
        } else {
            seq!['\n']
        }) + spec_dump_items(els.skip(idx + 1), ind, esc, cur),
{
    let sk = els.skip(idx);
    assert(sk[0] == els[idx]);
    assert(sk.drop_first() =~= els.skip(idx + 1));
}

pub proof fn lemma_dump_entries_step(
    es: Seq<(Seq<char>, JsonData)>,
    ind: nat,
    esc: bool,
    cur: nat,
    idx: int,
)
    requires
        0 <= idx < es.len(),
    ensures
        spec_dump_entries(es.skip(idx), ind, esc, cur) == spec_indent(cur) + seq!['"'] + es[idx].0
            + seq!['"', ':', ' '] + spec_dump_data(es[idx].1, ind, esc, cur) + (if idx + 1
            < es.len() {
            seq![',', '\n']
        } else {
            seq!['\n']
        }) + spec_dump_entries(es.skip(idx + 1), ind, esc, cur),
{
    let sk = es.skip(idx);
    assert(sk[0] == es[idx]);
    assert(sk.drop_first() =~= es.skip(idx + 1));
}

/// The one-line rendering of a value: members separated by `", "`, string
/// content verbatim.
pub open spec fn spec_compact(v: JsonData) -> Seq<char>
    decreases v,
{
    match v {
        JsonData::Null => seq!['n', 'u', 'l', 'l'],
        JsonData::Boolean(b) => if b {
            seq!['t', 'r', 'u', 'e']
        } else {
            seq!['f', 'a', 'l', 's', 'e']
        },
        JsonData::Number(t) => t,
        JsonData::Text(s) => seq!['"'] + s + seq!['"'],
        JsonData::Array(els) => seq!['['] + spec_compact_items(els) + seq![']'],
        JsonData::Object(es) => seq!['{'] + spec_compact_entries(es) + seq!['}'],
    }
}

pub open spec fn spec_compact_items(els: Seq<JsonData>) -> Seq<char>
    decreases els,
{
    if els.len() == 0 {
        Seq::empty()
    } else {
        spec_compact(els[0]) + (if els.len() > 1 {
            seq![',', ' ']
        } else {
            Seq::empty()
        }) + spec_compact_items(els.drop_first())
    }
}

pub open spec fn spec_compact_entries(es: Seq<(Seq<char>, JsonData)>) -> Seq<char>
    decreases es,
{
    if es.len() == 0 {
        Seq::empty()
    } else {
        seq!['"'] + es[0].0 + seq!['"', ':', ' '] + spec_compact(es[0].1) + (if es.len() > 1 {
            seq![',', ' ']
        } else {
            Seq::empty()
        }) + spec_compact_entries(es.drop_first())
    }
}

proof fn lemma_compact_items_step(els: Seq<JsonData>, idx: int)
    requires
        0 <= idx < els.len(),
    ensures
        spec_compact_items(els.skip(idx)) == spec_compact(els[idx]) + (if idx + 1 < els.len() {
            seq![',', ' ']
        } else {
            Seq::<char>::empty()
        }) + spec_compact_items(els.skip(idx + 1)),
{
    let sk = els.skip(idx);
    assert(sk[0] == els[idx]);
    assert(sk.drop_first() =~= els.skip(idx + 1));
}

proof fn lemma_compact_entries_step(es: Seq<(Seq<char>, JsonData)>, idx: int)
    requires
        0 <= idx < es.len(),
    ensures
        spec_compact_entries(es.skip(idx)) == seq!['"'] + es[idx].0 + seq!['"', ':', ' ']
            + spec_compact(es[idx].1) + (if idx + 1 < es.len() {
            seq![',', ' ']
        } else {
            Seq::<char>::empty()
        }) + spec_compact_entries(es.skip(idx + 1)),
{
    let sk = es.skip(idx);
    assert(sk[0] == es[idx]);
    assert(sk.drop_first() =~= es.skip(idx + 1));
}

/// Append the one-line rendering of a subtree to `out`.
#[verifier::rlimit(100)]
fn compact_into(out: &mut Vec<char>, json: &JsonNode)
    ensures
        final(out)@ == old(out)@ + spec_compact(json@),
    decreases *json,
{
    let ghost base = out@;
    match json {
        JsonNode::Null => {
            out.push('n');
            out.push('u');
            out.push('l');
            out.push('l');
            proof {
                assert(out@ =~= base + seq!['n', 'u', 'l', 'l']);
            }
        },
        JsonNode::Boolean(b) => {
            if *b {
                out.push('t');
                out.push('r');
                out.push('u');
                out.push('e');
                proof {
                    assert(out@ =~= base + seq!['t', 'r', 'u', 'e']);
                }
            } else {
                out.push('f');
                out.push('a');
                out.push('l');
                out.push('s');
                out.push('e');
                proof {
                    assert(out@ =~= base + seq!['f', 'a', 'l', 's', 'e']);
                }
            }
        },
        JsonNode::Number(num) => {
            push_str_chars(out, num.as_text());
        },
        JsonNode::Text(s) => {
            out.push('"');
            push_str_chars(out, s.as_str());
            out.push('"');
            proof {
                assert(out@ =~= base + spec_compact(json@));
            }
        },
        JsonNode::Array(els) => {
            let ghost data = nodes_data(els@);
            proof {
                lemma_nodes_data(els@);
                assert(data.skip(0) =~= data);
            }
            out.push('[');
            let ghost base2 = out@;
            let n = els.len();
            let mut idx: usize = 0;
            while idx < n
                invariant
                    n == els@.len(),
                    idx <= n,
                    data == nodes_data(els@),
                    data.len() == n,
                    forall|i: int| 0 <= i < n ==> data[i] == els@[i]@,
                    base2 + spec_compact_items(data) =~= out@ + spec_compact_items(
                        data.skip(idx as int),
                    ),
                    *json == JsonNode::Array(*els),
                decreases n - idx,
            {
                proof {
                    assert(decreases_to!(*json => (*json)->Array_0));
                    assert(decreases_to!(*els => els@));
                    assert(decreases_to!(els@ => els@[idx as int]));
                }
                compact_into(out, &els[idx]);
                if idx + 1 < n {
                    out.push(',');
                    out.push(' ');
                }
                proof {
                    lemma_compact_items_step(data, idx as int);
                }
                idx = idx + 1;
            }
            proof {
                assert(spec_compact_items(data.skip(n as int)) =~= Seq::<char>::empty());
            }
            out.push(']');
            proof {
                assert(out@ =~= base + spec_compact(json@));
            }
        },
        JsonNode::Object(es) => {
            let ghost data = entries_data(es@);
            proof {
                lemma_entries_data(es@);
                assert(data.skip(0) =~= data);
            }
            out.push('{');
            let ghost base2 = out@;
            let n = es.len();
            let mut idx: usize = 0;
            while idx < n
                invariant
                    n == es@.len(),
                    idx <= n,
                    data == entries_data(es@),
                    data.len() == n,
                    forall|i: int| 0 <= i < n ==> data[i] == (es@[i].0@, es@[i].1@),
                    base2 + spec_compact_entries(data) =~= out@ + spec_compact_entries(
                        data.skip(idx as int),
                    ),
                    *json == JsonNode::Object(*es),
                decreases n - idx,
            {
                out.push('"');
                let entry = &es[idx];
                push_str_chars(out, entry.0.as_str());
                out.push('"');
                out.push(':');
                out.push(' ');
                proof {
                    assert(decreases_to!(*json => (*json)->Object_0));
                    assert(decreases_to!(*es => es@));
                    assert(decreases_to!(es@ => es@[idx as int]));
                    assert(decreases_to!(es@[idx as int] => es@[idx as int].1));
                }
                compact_into(out, &entry.1);
                if idx + 1 < n {
                    out.push(',');
                    out.push(' ');
                }
                proof {
                    lemma_compact_entries_step(data, idx as int);
                }
                idx = idx + 1;
            }
            proof {
                assert(spec_compact_entries(data.skip(n as int)) =~= Seq::<char>::empty());
            }
            out.push('}');
            proof {
                assert(out@ =~= base + spec_compact(json@));
            }
        },
    }
}

impl JsonNode {
    /// Render this tree on one line: members separated by `", "`, keys and
    /// string content written verbatim in quotes.
    pub fn to_text(&self) -> (r: String)
        ensures
            r@ == spec_compact(self@),
    {
        let mut out: Vec<char> = Vec::new();
        compact_into(&mut out, self);
        proof {
            assert(Seq::<char>::empty() + spec_compact(self@) =~= spec_compact(self@));
        }
        chars_to_string(&out)
    }
}

/// Append the characters of `s` to `out`.
fn push_str_chars(out: &mut Vec<char>, s: &str)
    ensures
        final(out)@ == old(out)@ + s@,
{
    let ghost base = out@;
    let n = s.unicode_len();
    let mut i: usize = 0;
    while i < n
        invariant
            n == s@.len(),
            i <= n,
            out@ =~= base + s@.take(i as int),
        decreases n - i,
    {
        let c = s.get_char(i);
        proof {
            assert(s@.take(i as int + 1) =~= s@.take(i as int).push(s@[i as int]));
        }
        out.push(c);
        i = i + 1;
    }
    proof {
        assert(s@.take(n as int) =~= s@);
    }
}

fn exec_hex_digit_char(d: u32) -> (c: char)
    requires
        d < 16,
    ensures
        c == hex_digit_char(d as int),
{
    if d == 0 {
        '0'
    } else if d == 1 {
        '1'
    } else if d == 2 {
        '2'
    } else if d == 3 {
        '3'
    } else if d == 4 {
        '4'
    } else if d == 5 {
        '5'
    } else if d == 6 {
        '6'
    } else if d == 7 {
        '7'
    } else if d == 8 {
        '8'
    } else if d == 9 {
        '9'
    } else if d == 10 {
        'a'
    } else if d == 11 {
        'b'
    } else if d == 12 {
        'c'
    } else if d == 13 {
        'd'
    } else if d == 14 {
        'e'
    } else {
        'f'
    }
}

/// Append the `\u`-style zero-padded hexadecimal rendering of `n` to `out`.
fn push_hex4(out: &mut Vec<char>, n: u32)
    ensures
        final(out)@ == old(out)@ + hex4_seq(n as nat),
{
    let ghost base = out@;
    let mut digits: Vec<char> = Vec::new();
    let mut m = n;
    loop
        invariant_except_break
            hex_seq(n as nat) =~= hex_seq(m as nat) + digits@,
        ensures
            digits@ =~= hex_seq(n as nat),
        decreases m,
    {
        let d = m % 16;
        let c = exec_hex_digit_char(d);
        let ghost pre = digits@;
        digits.insert(0, c);
        proof {
            assert(digits@ =~= seq![c] + pre);
            if m >= 16 {
                assert(hex_seq((m / 16) as nat).push(hex_digit_char((m % 16) as int)) =~= hex_seq(
                    (m / 16) as nat,
                ) + seq![c]);
            } else {
                assert(hex_seq(m as nat) =~= seq![c]);
                assert(digits@ =~= hex_seq(m as nat) + pre);
            }
        }
        m = m / 16;
        if m == 0 {
            proof {
                assert(digits@ =~= hex_seq(n as nat));
            }
            break;
        }
    }
    let pad: usize = if digits.len() < 4 {
        4 - digits.len()
    } else {
        0
    };
    let mut k: usize = 0;
    while k < pad
        invariant
            k <= pad,
            out@ =~= base + Seq::new(k as nat, |i: int| '0'),
        decreases pad - k,
    {
        proof {
            assert(Seq::new((k + 1) as nat, |i: int| '0') =~= Seq::new(k as nat, |i: int| '0').push(
                '0',
            ));
        }
        out.push('0');
        k = k + 1;
    }
    let nd = digits.len();
    let mut j: usize = 0;
    while j < nd
        invariant
            nd == digits@.len(),
            j <= nd,
            out@ =~= base + Seq::new(pad as nat, |i: int| '0') + digits@.take(j as int),
        decreases nd - j,
    {
        proof {
            assert(digits@.take(j as int + 1) =~= digits@.take(j as int).push(digits@[j as int]));
        }
        let c = digits[j];
        out.push(c);
        j = j + 1;
    }
    proof {
        assert(digits@.take(nd as int) =~= digits@);
        if digits@.len() >= 4 {
            assert(out@ =~= base + hex4_seq(n as nat));
        } else {
            assert(out@ =~= base + hex4_seq(n as nat));
        }
    }
}

/// Append the escaped rendering of `s` to `out`.
fn push_escaped(out: &mut Vec<char>, s: &str)
    ensures
        final(out)@ == old(out)@ + spec_escape(s@),
{
    let ghost base = out@;
    let n = s.unicode_len();
    proof {
        assert(s@.skip(0) =~= s@);
    }
    let mut i: usize = 0;
    while i < n
        invariant
            n == s@.len(),
            i <= n,
            base + spec_escape(s@) =~= out@ + spec_escape(s@.skip(i as int)),
        decreases n - i,
    {
        let c = s.get_char(i);
        proof {
            assert(s@.skip(i as int)[0] == s@[i as int]);
            assert(s@.skip(i as int).drop_first() =~= s@.skip(i as int + 1));
        }
        if c == '"' {
            out.push('\\');
            out.push('"');
        } else if c == '\\' {
            out.push('\\');
            out.push('\\');
        } else if c == '\n' {
            out.push('\\');
            out.push('n');
        } else if c == '\r' {
            out.push('\\');
            out.push('r');
        } else if c == '\t' {
            out.push('\\');
            out.push('t');
        } else if c == '\u{8}' {
            out.push('\\');
            out.push('b');
        } else if c == '\u{c}' {
            out.push('\\');
            out.push('f');
        } else if c == '/' {
            out.push('\\');
            out.push('/');
        } else if (c as u32) >= 128 {
            out.push('\\');
            out.push('u');
            push_hex4(out, c as u32);
        } else {
            out.push(c);
        }
        proof {
            assert(base + spec_escape(s@) =~= out@ + spec_escape(s@.skip(i as int + 1)));
        }
        i = i + 1;
    }
    proof {
        assert(spec_escape(s@.skip(n as int)) =~= Seq::<char>::empty());
        assert(out@ =~= base + spec_escape(s@));
    }
}

/// Render string content as backslash escapes, the generic case as
/// `\uXXXX`.
pub fn translate_escape(s: &str) -> (r: String)
    ensures
        r@ == spec_escape(s@),
{
    let mut out: Vec<char> = Vec::new();
    push_escaped(&mut out, s);
    chars_to_string(&out)
}

/// The dumper: accumulated output and the current indentation state.
pub struct JsonDumper {
    current_indent: usize,
    indent_size: usize,
    result: Vec<char>,
    escape_string: bool,
}

impl JsonDumper {
    /// The indentation of the line being written.
    pub closed spec fn spec_cur(&self) -> nat {
        self.current_indent as nat
    }

    /// The indent width per nesting level.
    pub closed spec fn spec_ind(&self) -> nat {
        self.indent_size as nat
    }

    /// Whether string values render with escapes.
    pub closed spec fn spec_esc(&self) -> bool {
        self.escape_string
    }

    /// The text written so far.
    pub closed spec fn spec_result(&self) -> Seq<char> {
        self.result@
    }

    /// Append the current indentation.
    pub fn indent(&mut self)
        ensures
            final(self).spec_result() == old(self).spec_result() + spec_indent(
                old(self).spec_cur(),
            ),
            final(self).spec_cur() == old(self).spec_cur(),
            final(self).spec_ind() == old(self).spec_ind(),
            final(self).spec_esc() == old(self).spec_esc(),
    {
        let ghost base = self.result@;
        let n = self.current_indent;
        let mut k: usize = 0;
        while k < n
            invariant
                k <= n,
                self.current_indent == n,
                self.indent_size == old(self).indent_size,
                self.escape_string == old(self).escape_string,
                self.result@ =~= base + Seq::new(k as nat, |i: int| ' '),
                base == old(self).spec_result(),
                n == old(self).current_indent,
            decreases n - k,
        {
            proof {
                assert(Seq::new((k + 1) as nat, |i: int| ' ') =~= Seq::new(
                    k as nat,
                    |i: int| ' ',
                ).push(' '));
            }
            self.result.push(' ');
            k = k + 1;
        }
    }

    /// Append one character.
    fn put(&mut self, c: char)
        ensures
            final(self).spec_result() == old(self).spec_result() + seq![c],
            final(self).spec_cur() == old(self).spec_cur(),
            final(self).spec_ind() == old(self).spec_ind(),
            final(self).spec_esc() == old(self).spec_esc(),
    {
        self.result.push(c);
        proof {
            assert(self.result@ =~= old(self).result@ + seq![c]);
        }
    }

    /// Render one subtree at the current indentation, appending to the
    /// accumulated output.
    #[verifier::rlimit(100)]
    pub fn process(&mut self, json: &JsonNode)
        requires
            old(self).spec_cur() + old(self).spec_ind() * spec_depth(json@) <= usize::MAX,
        ensures
            final(self).spec_result() == old(self).spec_result() + spec_dump_data(
                json@,
                old(self).spec_ind(),
                old(self).spec_esc(),
                old(self).spec_cur(),
            ),
            final(self).spec_cur() == old(self).spec_cur(),
            final(self).spec_ind() == old(self).spec_ind(),
            final(self).spec_esc() == old(self).spec_esc(),
        decreases *json,
    {
        let ghost base = self.spec_result();
        match json {
            JsonNode::Null => {
                self.put('n');
                self.put('u');
                self.put('l');
                self.put('l');
                proof {
                    assert(self.spec_result() =~= base + seq!['n', 'u', 'l', 'l']);
                }
            },
            JsonNode::Boolean(b) => {
                if *b {
                    self.put('t');
                    self.put('r');
                    self.put('u');
                    self.put('e');
                    proof {
                        assert(self.spec_result() =~= base + seq!['t', 'r', 'u', 'e']);
                    }
                } else {
                    self.put('f');
                    self.put('a');
                    self.put('l');
                    self.put('s');
                    self.put('e');
                    proof {
                        assert(self.spec_result() =~= base + seq!['f', 'a', 'l', 's', 'e']);
                    }
                }
            },
            JsonNode::Number(num) => {
                push_str_chars(&mut self.result, num.as_text());
            },
            JsonNode::Text(s) => {
                self.put('"');
                if self.escape_string {
                    push_escaped(&mut self.result, s.as_str());
                } else {
                    push_str_chars(&mut self.result, s.as_str());
                }
                self.put('"');
                proof {
                    assert(self.spec_result() =~= base + spec_dump_data(
                        json@,
                        self.spec_ind(),
                        self.spec_esc(),
                        self.spec_cur(),
                    ));
                }
            },
            JsonNode::Array(els) => {
                let ghost data = nodes_data(els@);
                let ghost ind0 = self.spec_ind();
                let ghost esc0 = self.spec_esc();
                let ghost cur0 = self.spec_cur();
                proof {
                    lemma_nodes_data(els@);
                }
                let n = els.len();
                if n == 0 {
                    self.put('[');
                    self.put(']');
                    proof {
                        assert(self.spec_result() =~= base + seq!['[', ']']);
                    }
                } else {
                    proof {
                        lemma_items_depth(data);
                        assert(spec_depth(json@) == 1 + spec_items_depth(data));
                        assert(ind0 * (1 + spec_items_depth(data)) == ind0 + ind0
                            * spec_items_depth(data)) by (nonlinear_arith);
                    }
                    self.put('[');
                    self.put('\n');
                    self.current_indent = self.current_indent + self.indent_size;
                    let ghost base2 = self.spec_result();
                    proof {
                        assert(data.skip(0) =~= data);
                    }
                    let mut idx: usize = 0;
                    while idx < n
                        invariant
                            n == els@.len(),
                            idx <= n,
                            n > 0,
                            data == nodes_data(els@),
                            data.len() == n,
                            self.spec_ind() == ind0,
                            self.spec_esc() == esc0,
                            self.spec_cur() == cur0 + ind0,
                            cur0 + ind0 + ind0 * spec_items_depth(data) <= usize::MAX,
                            forall|i: int| 0 <= i < n ==> spec_depth(#[trigger] data[i])
                                <= spec_items_depth(data),
                            forall|i: int| 0 <= i < n ==> data[i] == els@[i]@,
                            base2 + spec_dump_items(data, ind0, esc0, cur0 + ind0) =~= self.spec_result()
                                + spec_dump_items(data.skip(idx as int), ind0, esc0, cur0 + ind0),
                            *json == JsonNode::Array(*els),
                        decreases n - idx,
                    {
                        self.indent();
                        proof {
                            assert(ind0 * spec_depth(data[idx as int]) <= ind0
                                * spec_items_depth(data)) by (nonlinear_arith)
                                requires
                                    spec_depth(data[idx as int]) <= spec_items_depth(data),
                                    ind0 >= 0,
                            ;
                            assert(decreases_to!(*json => (*json)->Array_0));
                            assert(decreases_to!(*els => els@));
                            assert(decreases_to!(els@ => els@[idx as int]));
                        }
                        self.process(&els[idx]);
                        if idx + 1 < n {
                            self.put(',');
                        }
                        self.put('\n');
                        proof {
                            lemma_dump_items_step(data, ind0, esc0, cur0 + ind0, idx as int);
                        }
                        idx = idx + 1;
                    }
                    proof {
                        assert(spec_dump_items(data.skip(n as int), ind0, esc0, cur0 + ind0)
                            =~= Seq::<char>::empty());
                    }
                    self.current_indent = self.current_indent - self.indent_size;
                    self.indent();
                    self.put(']');
                    proof {
                        assert(self.spec_result() =~= base + spec_dump_data(
                            json@,
                            ind0,
                            esc0,
                            cur0,
                        ));
                    }
                }
            },
            JsonNode::Object(es) => {
                let ghost data = entries_data(es@);
                let ghost ind0 = self.spec_ind();
                let ghost esc0 = self.spec_esc();
                let ghost cur0 = self.spec_cur();
                proof {
                    lemma_entries_data(es@);
                }
                let n = es.len();
                if n == 0 {
                    self.put('{');
                    self.put('}');
                    proof {
                        assert(self.spec_result() =~= base + seq!['{', '}']);
                    }
                } else {
                    proof {
                        lemma_entries_depth(data);
                        assert(spec_depth(json@) == 1 + spec_entries_depth(data));
                        assert(ind0 * (1 + spec_entries_depth(data)) == ind0 + ind0
                            * spec_entries_depth(data)) by (nonlinear_arith);
                    }
                    self.put('{');
                    self.put('\n');
                    self.current_indent = self.current_indent + self.indent_size;
                    let ghost base2 = self.spec_result();
                    proof {
                        assert(data.skip(0) =~= data);
                    }
                    let mut idx: usize = 0;
                    while idx < n
                        invariant
                            n == es@.len(),
                            idx <= n,
                            n > 0,
                            data == entries_data(es@),
                            data.len() == n,
                            self.spec_ind() == ind0,
                            self.spec_esc() == esc0,
                            self.spec_cur() == cur0 + ind0,
                            cur0 + ind0 + ind0 * spec_entries_depth(data) <= usize::MAX,
                            forall|i: int| 0 <= i < n ==> spec_depth(#[trigger] data[i].1)
                                <= spec_entries_depth(data),
                            forall|i: int| 0 <= i < n ==> data[i] == (
                                es@[i].0@,
                                es@[i].1@,
                            ),
                            base2 + spec_dump_entries(data, ind0, esc0, cur0 + ind0)
                                =~= self.spec_result() + spec_dump_entries(
                                data.skip(idx as int),
                                ind0,
                                esc0,
                                cur0 + ind0,
                            ),
                            *json == JsonNode::Object(*es),
                        decreases n - idx,
                    {
                        self.indent();
                        self.put('"');
                        let entry = &es[idx];
                        push_str_chars(&mut self.result, entry.0.as_str());
                        self.put('"');
                        self.put(':');
                        self.put(' ');
                        proof {
                            assert(ind0 * spec_depth(data[idx as int].1) <= ind0
                                * spec_entries_depth(data)) by (nonlinear_arith)
                                requires
                                    spec_depth(data[idx as int].1) <= spec_entries_depth(data),
                                    ind0 >= 0,
                            ;
                            assert(decreases_to!(*json => (*json)->Object_0));
                            assert(decreases_to!(*es => es@));
                            assert(decreases_to!(es@ => es@[idx as int]));
                            assert(decreases_to!(es@[idx as int] => es@[idx as int].1));
                        }
                        self.process(&entry.1);
                        if idx + 1 < n {
                            self.put(',');
                        }
                        self.put('\n');
                        proof {
                            lemma_dump_entries_step(data, ind0, esc0, cur0 + ind0, idx as int);
                        }
                        idx = idx + 1;
                    }
                    proof {
                        assert(spec_dump_entries(data.skip(n as int), ind0, esc0, cur0 + ind0)
                            =~= Seq::<char>::empty());
                    }
                    self.current_indent = self.current_indent - self.indent_size;
                    self.indent();
                    self.put('}');
                    proof {
                        assert(self.spec_result() =~= base + spec_dump_data(
                            json@,
                            ind0,
                            esc0,
                            cur0,
                        ));
                    }
                }
            },
        }
    }
}

/// Render a value tree as formatted text with the given indent width and
/// string-escaping choice.
pub fn dump_json_node(json: &JsonNode, indent: usize, escape_string: bool) -> (r: String)
    requires
        indent * spec_depth(json@) <= usize::MAX,
    ensures
        r@ == spec_dump_data(json@, indent as nat, escape_string, 0),
{
    let mut dumper = JsonDumper {
        current_indent: 0,
        indent_size: indent,
        result: Vec::new(),
        escape_string,
    };
    dumper.process(json);
    proof {
        assert(Seq::<char>::empty() + spec_dump_data(
            json@,
            indent as nat,
            escape_string,
            0,
        ) =~= spec_dump_data(json@, indent as nat, escape_string, 0));
    }
    chars_to_string(&dumper.result)
}

} // verus!
