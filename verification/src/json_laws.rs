//! Cross-component laws of the engine.
//!
//! Three statements stand here.  The escape round trip: escaping a string
//! and lexing the escaped text back recovers the string exactly, for every
//! string whose characters lie in the Basic Multilingual Plane (a character
//! beyond it is escaped as a single over-wide `\uXXXXX` run that the
//! four-digit scan cannot read back, so it stands outside the law).
//! Well-formedness: every successfully parsed document has unique keys in
//! each object and valid number texts.  And the dump round trip: for every
//! well-formed tree with plain keys and BMP string values, dumping with
//! escaping on and re-parsing the text yields the tree itself, token for
//! token, whatever indent width was used.

use vstd::prelude::*;
use crate::json_basic::JsonData;
use crate::json_number::is_number_text;
use crate::json_basic::keys_unique;
use crate::json_basic::lemma_obj_insert_absent;
use crate::json_basic::lemma_obj_insert_wf;
use crate::json_basic::wf_data;
use crate::json_basic::spec_obj_insert;
use crate::json_impl::TokData;
use crate::json_parser::FrameData;
use crate::json_parser::ObjModeData;
use crate::json_parser::StepData;
use crate::json_parser::leaf_of;
use crate::json_parser::spec_put;
use crate::json_parser::spec_run;
use crate::json_parser::spec_step;
use crate::json_dumper::hex4_seq;
use crate::json_dumper::hex_digit_char;
use crate::json_dumper::hex_seq;
use crate::json_dumper::spec_dump_data;
use crate::json_dumper::spec_dump_entries;
use crate::json_dumper::spec_dump_items;
use crate::json_dumper::spec_escape;
use crate::json_dumper::spec_indent;
use crate::json_dumper::spec_escape_char;
use crate::json_lexer::alpha_end;
use crate::json_lexer::hex4_end;
use crate::json_lexer::hex4_val;
use crate::json_lexer::hex_val;
use crate::json_lexer::is_hex;
use crate::json_lexer::is_alpha;
use crate::json_lexer::is_number_char;
use crate::json_lexer::is_scalar_code;
use crate::json_lexer::is_ws;
use crate::json_lexer::LexStep;
use crate::json_lexer::next_token_at;
use crate::json_lexer::number_end;
use crate::json_lexer::skip_ws;
use crate::json_lexer::tokens_from;
use crate::json_lexer::scan_escape;
use crate::json_lexer::scan_string;
use crate::json_lexer::unicode_escape_char;

verus! {

/// Every character of `s` lies in the Basic Multilingual Plane.
pub open spec fn all_bmp(s: Seq<char>) -> bool {
    forall|i: int| 0 <= i < s.len() ==> (#[trigger] s[i] as u32) < 0x10000
}

/// Hexadecimal digit characters read back as their value.
proof fn lemma_hex_digit_char_val(d: int)
    requires
        0 <= d < 16,
    ensures
        is_hex(hex_digit_char(d)),
        hex_val(hex_digit_char(d)) == d,
{
}

/// The value of a hexadecimal digit run, most significant first.
pub open spec fn hseq_val(h: Seq<char>) -> int
    decreases h.len(),
{
    if h.len() == 0 {
        0
    } else {
        hseq_val(h.drop_last()) * 16 + hex_val(h.last())
    }
}

/// The digits of `n` are hexadecimal and read back as `n`.
proof fn lemma_hex_seq(n: nat)
    ensures
        hex_seq(n).len() >= 1,
        forall|k: int| 0 <= k < hex_seq(n).len() ==> is_hex(#[trigger] hex_seq(n)[k]),
        hseq_val(hex_seq(n)) == n,
        n < 16 ==> hex_seq(n).len() == 1,
        n < 0x100 ==> hex_seq(n).len() <= 2,
        n < 0x1000 ==> hex_seq(n).len() <= 3,
        n < 0x10000 ==> hex_seq(n).len() <= 4,
    decreases n,
{
    if n < 16 {
        lemma_hex_digit_char_val(n as int);
        let t = hex_seq(n);
        assert(t == seq![hex_digit_char(n as int)]);
        assert(t.drop_last() =~= Seq::<char>::empty());
        assert(hseq_val(t) == hseq_val(t.drop_last()) * 16 + hex_val(t.last()));
    } else {
        lemma_hex_seq(n / 16);
        lemma_hex_digit_char_val((n % 16) as int);
        let h = hex_seq(n / 16);
        let t = hex_seq(n);
        assert(t == h.push(hex_digit_char((n % 16) as int)));
        assert forall|k: int| 0 <= k < t.len() implies is_hex(#[trigger] t[k]) by {
            if k < h.len() {
                assert(t[k] == h[k]);
            }
        }
        assert(t.drop_last() =~= h);
        assert(hseq_val(t) == hseq_val(h) * 16 + (n % 16));
        assert((n / 16) * 16 + n % 16 == n);
    }
}

/// Zero padding on the left does not change a run's value.
proof fn lemma_hseq_val_pad(pad: nat, h: Seq<char>)
    ensures
        hseq_val(Seq::new(pad, |i: int| '0') + h) == hseq_val(h),
    decreases h.len(),
{
    let z = Seq::new(pad, |i: int| '0');
    if h.len() == 0 {
        assert(z + h =~= z);
        lemma_hseq_val_zeros(pad);
    } else {
        lemma_hseq_val_pad(pad, h.drop_last());
        assert((z + h).drop_last() =~= z + h.drop_last());
        assert((z + h).last() == h.last());
        assert(hseq_val(z + h) == hseq_val(z + h.drop_last()) * 16 + hex_val(h.last()));
        assert(hseq_val(h) == hseq_val(h.drop_last()) * 16 + hex_val(h.last()));
    }
}

proof fn lemma_hseq_val_zeros(pad: nat)
    ensures
        hseq_val(Seq::new(pad, |i: int| '0')) == 0,
    decreases pad,
{
    let z = Seq::new(pad, |i: int| '0');
    if pad > 0 {
        lemma_hseq_val_zeros((pad - 1) as nat);
        assert(z.drop_last() =~= Seq::new((pad - 1) as nat, |i: int| '0'));
        assert(z.last() == '0');
        assert(hex_val('0') == 0);
    }
}

/// For a BMP code point the padded rendering holds exactly four
/// hexadecimal digits that read back as the code point.
proof fn lemma_hex4_seq(n: nat)
    requires
        n < 0x10000,
    ensures
        hex4_seq(n).len() == 4,
        forall|k: int| 0 <= k < 4 ==> is_hex(#[trigger] hex4_seq(n)[k]),
        hseq_val(hex4_seq(n)) == n,
{
    lemma_hex_seq(n);
    let h = hex_seq(n);
    if h.len() >= 4 {
        assert(hex4_seq(n) == h);
    } else {
        let pad = (4 - h.len()) as nat;
        lemma_hseq_val_pad(pad, h);
        assert forall|k: int| 0 <= k < 4 implies is_hex(#[trigger] hex4_seq(n)[k]) by {
            if k < pad {
                assert(hex4_seq(n)[k] == '0');
            } else {
                assert(hex4_seq(n)[k] == h[k - pad]);
            }
        }
    }
}

/// Reading four hexadecimal digits that render `n` yields `n`.
proof fn lemma_hex4_val_of(t: Seq<char>, i: int, n: nat)
    requires
        n < 0x10000,
        0 <= i,
        i + 4 <= t.len(),
        forall|k: int| 0 <= k < 4 ==> t[i + k] == hex4_seq(n)[k],
    ensures
        hex4_val(t, i) == n,
{
    lemma_hex4_seq(n);
    reveal_with_fuel(hseq_val, 6);
    let h = hex4_seq(n);
    assert(h.drop_last() =~= seq![h[0], h[1], h[2]]);
    assert(h.drop_last().drop_last() =~= seq![h[0], h[1]]);
    assert(h.drop_last().drop_last().drop_last() =~= seq![h[0]]);
    assert(seq![h[0]].drop_last() =~= Seq::<char>::empty());
    assert(hseq_val(seq![h[0]]) == hex_val(h[0]));
    assert(hseq_val(seq![h[0], h[1]]) == hex_val(h[0]) * 16 + hex_val(h[1]));
    assert(hseq_val(h.drop_last()) == (hex_val(h[0]) * 16 + hex_val(h[1])) * 16 + hex_val(h[2]));
    assert(n == ((hex_val(h[0]) * 16 + hex_val(h[1])) * 16 + hex_val(h[2])) * 16 + hex_val(h[3]));
    assert(t[i] == h[0] && t[i + 1] == h[1] && t[i + 2] == h[2] && t[i + 3] == h[3]);
}

/// Scanning escaped string content followed by a closing quote recovers
/// the original content and stops after the quote.
pub proof fn lemma_scan_escaped(t: Seq<char>, i: int, s: Seq<char>)
    requires
        all_bmp(s),
        0 <= i,
        i + spec_escape(s).len() < t.len(),
        t.subrange(i, i + spec_escape(s).len()) == spec_escape(s),
        t[i + spec_escape(s).len()] == '"',
    ensures
        scan_string(t, i) == Some((s, i + spec_escape(s).len() + 1)),
    decreases s.len(),
{
    if s.len() == 0 {
        assert(t[i] == '"');
    } else {
        let c = s[0];
        let e0 = spec_escape_char(c);
        let srest = s.drop_first();
        let erest = spec_escape(srest);
        assert(spec_escape(s) == e0 + erest);
        let full = t.subrange(i, i + spec_escape(s).len());
        assert forall|k: int| 0 <= k < e0.len() implies t[i + k] == e0[k] by {
            assert(full[k] == t[i + k]);
            assert((e0 + erest)[k] == e0[k]);
        }
        let j = i + e0.len();
        assert(t.subrange(j, j + erest.len()) =~= erest) by {
            assert forall|k: int| 0 <= k < erest.len() implies t.subrange(
                j,
                j + erest.len(),
            )[k] == erest[k] by {
                assert(t.subrange(j, j + erest.len())[k] == t[j + k]);
                assert(full[e0.len() + k] == t[j + k]);
                assert((e0 + erest)[e0.len() + k] == erest[k]);
            }
        }
        assert(all_bmp(srest)) by {
            assert(forall|k: int| 0 <= k < srest.len() ==> srest[k] == s[k + 1]);
        }
        lemma_scan_escaped(t, j, srest);
        assert(seq![c] + srest =~= s);
        if c == '"' || c == '\\' || c == '\n' || c == '\r' || c == '\t' || c == '\u{8}' || c
            == '\u{c}' || c == '/' {
            assert(e0.len() == 2);
            assert(t[i] == '\\');
            assert(t[i + 1] == e0[1]);
            assert(scan_escape(t, i + 1) == Some((c, i + 2)));
        } else if c as u32 >= 128 {
            let n = c as u32;
            assert(n < 0x10000);
            lemma_hex4_seq(n as nat);
            assert(e0 =~= seq!['\\', 'u'] + hex4_seq(n as nat));
            assert(e0.len() == 6);
            assert(t[i + 0] == e0[0] && e0[0] == '\\');
            assert(t[i] == '\\');
            assert(t[i + 1] == e0[1] && e0[1] == 'u');
            assert(t[i + 1] == 'u');
            let h4 = hex4_seq(n as nat);
            assert(t[i + 2] == e0[2] && e0[2] == h4[0]);
            assert(t[i + 3] == e0[3] && e0[3] == h4[1]);
            assert(t[i + 4] == e0[4] && e0[4] == h4[2]);
            assert(t[i + 5] == e0[5] && e0[5] == h4[3]);
            assert(is_hex(t[i + 2]) && is_hex(t[i + 3]) && is_hex(t[i + 4]) && is_hex(t[i + 5]));
            assert(i + 5 < t.len());
            assert(hex4_end(t, i + 2) == i + 6);
            assert forall|k: int| 0 <= k < 4 implies t[i + 2 + k] == h4[k] by {
                assert(k == 0 || k == 1 || k == 2 || k == 3);
            }
            lemma_hex4_val_of(t, i + 2, n as nat);
            vstd::utf8::char_is_scalar(c);
            assert((c as u32) < 0xD800 || (c as u32) >= 0xE000);
            assert(c as u32 <= 0x10FFFF);
            assert(is_scalar_code(n));
            vstd::utf8::char_u32_cast(c, n);
            assert(unicode_escape_char(t, i + 2) == c);
            assert(scan_escape(t, i + 1) == Some((c, i + 6)));
        } else {
            assert(e0 == seq![c]);
            assert(t[i] == c);
            assert(c != '"' && c != '\\');
        }
    }
}

/// Law: escaping then unescaping reproduces the string exactly.  Scanning
/// the escaped rendering of `s` up to a closing quote yields `s`, whatever
/// text follows the quote.
pub proof fn lemma_escape_round_trip(s: Seq<char>, rest: Seq<char>)
    requires
        all_bmp(s),
    ensures
        scan_string(spec_escape(s) + seq!['"'] + rest, 0) == Some(
            (s, spec_escape(s).len() as int + 1),
        ),
{
    let t = spec_escape(s) + seq!['"'] + rest;
    assert(t.subrange(0, spec_escape(s).len() as int) =~= spec_escape(s));
    assert(t[spec_escape(s).len() as int] == '"');
    lemma_scan_escaped(t, 0, s);
}

/// The token stream of one value, as the lexer reads a dump of it.
pub open spec fn toks_of(v: JsonData) -> Seq<TokData>
    decreases v,
{
    match v {
        JsonData::Null => seq![TokData::Null],
        JsonData::Boolean(b) => seq![TokData::Boolean(b)],
        JsonData::Number(t) => seq![TokData::Number(t)],
        JsonData::Text(s) => seq![TokData::Text(s)],
        JsonData::Array(els) => seq![TokData::LeftBracket] + toks_items(els) + seq![
            TokData::RightBracket,
        ],
        JsonData::Object(es) => seq![TokData::LeftBrace] + toks_entries(es) + seq![
            TokData::RightBrace,
        ],
    }
}

/// The token stream of array members, commas between them.
pub open spec fn toks_items(els: Seq<JsonData>) -> Seq<TokData>
    decreases els,
{
    if els.len() == 0 {
        Seq::empty()
    } else {
        toks_of(els[0]) + (if els.len() > 1 {
            seq![TokData::Comma]
        } else {
            Seq::empty()
        }) + toks_items(els.drop_first())
    }
}

/// The token stream of object members: key, colon, value, commas between.
pub open spec fn toks_entries(es: Seq<(Seq<char>, JsonData)>) -> Seq<TokData>
    decreases es,
{
    if es.len() == 0 {
        Seq::empty()
    } else {
        seq![TokData::Text(es[0].0), TokData::Colon] + toks_of(es[0].1) + (if es.len() > 1 {
            seq![TokData::Comma]
        } else {
            Seq::empty()
        }) + toks_entries(es.drop_first())
    }
}

/// Keys are unique in every object of the tree.
pub open spec fn uniq_data(v: JsonData) -> bool
    decreases v,
{
    match v {
        JsonData::Object(es) => keys_unique(es) && (forall|i: int|
            0 <= i < es.len() ==> uniq_data(#[trigger] es[i].1)),
        JsonData::Array(els) => forall|i: int| 0 <= i < els.len() ==> uniq_data(
            #[trigger] els[i],
        ),
        _ => true,
    }
}

/// The machine state waits for a value next.
pub open spec fn expects_value(stack: Seq<FrameData>) -> bool {
    ||| stack.len() == 0
    ||| stack.last() is ArrFrame
    ||| (stack.last() matches FrameData::ObjFrame(es, m) && m is WantValue)
}

/// What running the machine yields once one complete value `v` has been
/// read in state `stack`: done if `stack` is empty, else the machine goes
/// on over `rest` with `v` delivered to the top frame.
pub open spec fn after_value(v: JsonData, rest: Seq<TokData>, stack: Seq<FrameData>) -> Option<
    JsonData,
> {
    match spec_put(stack, v) {
        StepData::StepDone(d) => Some(d),
        StepData::StepMore(st) => spec_run(rest, st),
        StepData::StepFail => None,
    }
}

/// Parsing inverts the token rendering: the machine, expecting a value,
/// reads exactly the token stream of `v` and delivers `v`.
pub proof fn lemma_run_value(v: JsonData, rest: Seq<TokData>, stack: Seq<FrameData>)
    requires
        uniq_data(v),
        expects_value(stack),
    ensures
        spec_run(toks_of(v) + rest, stack) == after_value(v, rest, stack),
    decreases v,
{
    let toks = toks_of(v) + rest;
    assert(spec_put(stack, v) is StepFail == false);
    match v {
        JsonData::Null => {
            assert(toks[0] == TokData::Null);
            assert(spec_step(stack, toks[0]) == spec_put(stack, v));
            assert(toks.drop_first() =~= rest);
        },
        JsonData::Boolean(b) => {
            assert(toks[0] == TokData::Boolean(b));
            assert(spec_step(stack, toks[0]) == spec_put(stack, v));
            assert(toks.drop_first() =~= rest);
        },
        JsonData::Number(t) => {
            assert(toks[0] == TokData::Number(t));
            assert(spec_step(stack, toks[0]) == spec_put(stack, v));
            assert(toks.drop_first() =~= rest);
        },
        JsonData::Text(s) => {
            assert(toks[0] == TokData::Text(s));
            assert(spec_step(stack, toks[0]) == spec_put(stack, v));
            assert(toks.drop_first() =~= rest);
        },
        JsonData::Array(els) => {
            assert(toks[0] == TokData::LeftBracket);
            let st2 = stack.push(FrameData::ArrFrame(Seq::empty()));
            assert(spec_step(stack, TokData::LeftBracket) == StepData::StepMore(st2)) by {
                if stack.len() == 0 {
                    assert(seq![FrameData::ArrFrame(Seq::<JsonData>::empty())] =~= st2);
                }
            }
            assert(toks.drop_first() =~= toks_items(els) + seq![TokData::RightBracket] + rest);
            lemma_run_items(els, Seq::empty(), els, rest, stack);
            assert(Seq::<JsonData>::empty() + els =~= els);
        },
        JsonData::Object(es) => {
            assert(toks[0] == TokData::LeftBrace);
            let st2 = stack.push(
                FrameData::ObjFrame(Seq::empty(), ObjModeData::WantKeyOrEnd),
            );
            assert(spec_step(stack, TokData::LeftBrace) == StepData::StepMore(st2)) by {
                if stack.len() == 0 {
                    assert(seq![
                        FrameData::ObjFrame(
                            Seq::<(Seq<char>, JsonData)>::empty(),
                            ObjModeData::WantKeyOrEnd,
                        ),
                    ] =~= st2);
                }
            }
            assert(toks.drop_first() =~= toks_entries(es) + seq![TokData::RightBrace] + rest);
            lemma_run_entries(es, Seq::empty(), es, rest, stack);
            assert(Seq::<(Seq<char>, JsonData)>::empty() + es =~= es);
        },
    }
}

/// Reading the remaining member tokens and the closing bracket of an array
/// whose first members already stand in the open frame delivers the whole
/// array.
pub proof fn lemma_run_items(
    pending: Seq<JsonData>,
    acc: Seq<JsonData>,
    all: Seq<JsonData>,
    rest: Seq<TokData>,
    stack: Seq<FrameData>,
)
    requires
        forall|i: int| 0 <= i < pending.len() ==> uniq_data(#[trigger] pending[i]),
        expects_value(stack),
        all == acc + pending,
    ensures
        spec_run(
            toks_items(pending) + seq![TokData::RightBracket] + rest,
            stack.push(FrameData::ArrFrame(acc)),
        ) == after_value(JsonData::Array(all), rest, stack),
    decreases pending,
{
    let st = stack.push(FrameData::ArrFrame(acc));
    if pending.len() == 0 {
        let toks = toks_items(pending) + seq![TokData::RightBracket] + rest;
        assert(toks[0] == TokData::RightBracket);
        assert(st.last() == FrameData::ArrFrame(acc));
        assert(st.drop_last() =~= stack);
        assert(acc =~= all);
        assert(spec_step(st, TokData::RightBracket) == spec_put(stack, JsonData::Array(all)));
        assert(toks.drop_first() =~= rest);
    } else {
        let p0 = pending[0];
        let prest = pending.drop_first();
        let comma: Seq<TokData> = if pending.len() > 1 {
            seq![TokData::Comma]
        } else {
            Seq::empty()
        };
        let tail = comma + toks_items(prest) + seq![TokData::RightBracket] + rest;
        assert(toks_items(pending) + seq![TokData::RightBracket] + rest =~= toks_of(p0) + tail);
        lemma_run_value(p0, tail, st);
        let st2 = stack.push(FrameData::ArrFrame(acc.push(p0)));
        assert(spec_put(st, p0) == StepData::StepMore(st2)) by {
            assert(st.last() == FrameData::ArrFrame(acc));
            assert(st.drop_last() =~= stack);
        }
        if pending.len() > 1 {
            assert(tail[0] == TokData::Comma);
            assert(st2.last() == FrameData::ArrFrame(acc.push(p0)));
            assert(spec_step(st2, TokData::Comma) == StepData::StepMore(st2));
            assert(tail.drop_first() =~= toks_items(prest) + seq![TokData::RightBracket] + rest);
        } else {
            assert(prest =~= Seq::<JsonData>::empty());
            assert(tail =~= toks_items(prest) + seq![TokData::RightBracket] + rest);
        }
        assert(acc.push(p0) + prest =~= acc + pending);
        lemma_run_items(prest, acc.push(p0), all, rest, stack);
    }
}

/// Reading the remaining member tokens and the closing brace of an object
/// whose first entries already stand in the open frame delivers the whole
/// object.
#[verifier::rlimit(100)]
pub proof fn lemma_run_entries(
    pending: Seq<(Seq<char>, JsonData)>,
    acc: Seq<(Seq<char>, JsonData)>,
    all: Seq<(Seq<char>, JsonData)>,
    rest: Seq<TokData>,
    stack: Seq<FrameData>,
)
    requires
        forall|i: int| 0 <= i < pending.len() ==> uniq_data(#[trigger] pending[i].1),
        keys_unique(all),
        expects_value(stack),
        all == acc + pending,
    ensures
        spec_run(
            toks_entries(pending) + seq![TokData::RightBrace] + rest,
            stack.push(FrameData::ObjFrame(acc, ObjModeData::WantKeyOrEnd)),
        ) == after_value(JsonData::Object(all), rest, stack),
    decreases pending,
{
    reveal_with_fuel(spec_run, 6);
    let st = stack.push(FrameData::ObjFrame(acc, ObjModeData::WantKeyOrEnd));
    if pending.len() == 0 {
        let toks = toks_entries(pending) + seq![TokData::RightBrace] + rest;
        assert(toks[0] == TokData::RightBrace);
        assert(st.last() == FrameData::ObjFrame(acc, ObjModeData::WantKeyOrEnd));
        assert(st.drop_last() =~= stack);
        assert(acc =~= all);
        assert(spec_step(st, TokData::RightBrace) == spec_put(stack, JsonData::Object(all)));
        assert(toks.drop_first() =~= rest);
    } else {
        let e0 = pending[0];
        let prest = pending.drop_first();
        let comma: Seq<TokData> = if pending.len() > 1 {
            seq![TokData::Comma]
        } else {
            Seq::empty()
        };
        let after_val = comma + toks_entries(prest) + seq![TokData::RightBrace] + rest;
        let toks = toks_entries(pending) + seq![TokData::RightBrace] + rest;
        assert(toks =~= seq![TokData::Text(e0.0), TokData::Colon] + toks_of(e0.1) + after_val);
        // the key token
        assert(toks[0] == TokData::Text(e0.0));
        let st_colon = stack.push(FrameData::ObjFrame(acc, ObjModeData::WantColon(e0.0)));
        assert(spec_step(st, toks[0]) == StepData::StepMore(st_colon)) by {
            assert(st.last() == FrameData::ObjFrame(acc, ObjModeData::WantKeyOrEnd));
            assert(st.drop_last() =~= stack);
        }
        // the colon
        assert(toks.drop_first()[0] == TokData::Colon);
        let st_value = stack.push(FrameData::ObjFrame(acc, ObjModeData::WantValue(e0.0)));
        assert(spec_step(st_colon, TokData::Colon) == StepData::StepMore(st_value)) by {
            assert(st_colon.last() == FrameData::ObjFrame(acc, ObjModeData::WantColon(e0.0)));
            assert(st_colon.drop_last() =~= stack);
        }
        assert(toks.drop_first().drop_first() =~= toks_of(e0.1) + after_val);
        // the value
        lemma_run_value(e0.1, after_val, st_value);
        // the value is delivered into the frame; the key is fresh, so the
        // entry list grows at the end
        let acc2 = acc.push(e0);
        let st_comma = stack.push(FrameData::ObjFrame(acc2, ObjModeData::WantCommaOrEnd));
        assert(spec_put(st_value, e0.1) == StepData::StepMore(st_comma)) by {
            assert(st_value.last() == FrameData::ObjFrame(acc, ObjModeData::WantValue(e0.0)));
            assert(st_value.drop_last() =~= stack);
            assert forall|j: int| 0 <= j < acc.len() implies acc[j].0 != e0.0 by {
                assert(all[j] == acc[j]);
                assert(all[acc.len() as int] == e0);
            }
            lemma_obj_insert_absent(acc, e0.0, e0.1);
            assert(spec_obj_insert(acc, e0.0, e0.1) =~= acc2);
            assert((e0.0, e0.1) == e0);
        }
        if pending.len() > 1 {
            assert(after_val[0] == TokData::Comma);
            let st_key = stack.push(FrameData::ObjFrame(acc2, ObjModeData::WantKeyOrEnd));
            assert(spec_step(st_comma, TokData::Comma) == StepData::StepMore(st_key)) by {
                assert(st_comma.last() == FrameData::ObjFrame(acc2, ObjModeData::WantCommaOrEnd));
                assert(st_comma.drop_last() =~= stack);
            }
            assert(after_val.drop_first() =~= toks_entries(prest) + seq![TokData::RightBrace]
                + rest);
        } else {
            assert(prest =~= Seq::<(Seq<char>, JsonData)>::empty());
            assert(after_val =~= toks_entries(prest) + seq![TokData::RightBrace] + rest);
            // with no comma, the machine sees the closing brace in the
            // WantCommaOrEnd mode, which also accepts it
            assert(toks_entries(prest) =~= Seq::<TokData>::empty());
            let toks2 = toks_entries(prest) + seq![TokData::RightBrace] + rest;
            assert(toks2[0] == TokData::RightBrace);
            assert(spec_step(st_comma, TokData::RightBrace) == spec_put(
                stack,
                JsonData::Object(acc2),
            )) by {
                assert(st_comma.last() == FrameData::ObjFrame(acc2, ObjModeData::WantCommaOrEnd));
                assert(st_comma.drop_last() =~= stack);
            }
            assert(toks2.drop_first() =~= rest);
            assert(acc2 =~= all);
        }
        if pending.len() > 1 {
            assert(acc2 + prest =~= acc + pending);
            lemma_run_entries(prest, acc2, all, rest, stack);
        }
    }
}

/// A token whose payload is well-formed: number tokens carry valid number
/// texts.
pub open spec fn tok_wf(t: TokData) -> bool {
    match t {
        TokData::Number(tx) => is_number_text(tx),
        _ => true,
    }
}

pub open spec fn toks_wf(ts: Seq<TokData>) -> bool {
    forall|i: int| 0 <= i < ts.len() ==> tok_wf(#[trigger] ts[i])
}

/// A machine frame holding only well-formed members, with unique keys.
pub open spec fn frame_wf(f: FrameData) -> bool {
    match f {
        FrameData::ArrFrame(items) => forall|i: int|
            0 <= i < items.len() ==> wf_data(#[trigger] items[i]),
        FrameData::ObjFrame(es, _) => keys_unique(es) && (forall|i: int|
            0 <= i < es.len() ==> wf_data(#[trigger] es[i].1)),
    }
}

pub open spec fn stack_wf(st: Seq<FrameData>) -> bool {
    forall|i: int| 0 <= i < st.len() ==> frame_wf(#[trigger] st[i])
}

/// Delivering a well-formed value preserves well-formedness.
proof fn lemma_put_wf(stack: Seq<FrameData>, v: JsonData)
    requires
        stack_wf(stack),
        wf_data(v),
    ensures
        match spec_put(stack, v) {
            StepData::StepDone(d) => wf_data(d),
            StepData::StepMore(st) => stack_wf(st),
            StepData::StepFail => true,
        },
{
    if stack.len() > 0 {
        let rest = stack.drop_last();
        assert(frame_wf(stack.last()));
        assert forall|i: int| 0 <= i < rest.len() implies frame_wf(#[trigger] rest[i]) by {
            assert(rest[i] == stack[i]);
        }
        match stack.last() {
            FrameData::ArrFrame(items) => {
                assert forall|i: int| 0 <= i < items.push(v).len() implies wf_data(
                    #[trigger] items.push(v)[i],
                ) by {
                    if i < items.len() {
                        assert(items.push(v)[i] == items[i]);
                    }
                }
                let st = rest.push(FrameData::ArrFrame(items.push(v)));
                assert forall|i: int| 0 <= i < st.len() implies frame_wf(#[trigger] st[i]) by {
                    if i < rest.len() {
                        assert(st[i] == rest[i]);
                    }
                }
            },
            FrameData::ObjFrame(es, mode) => {
                if mode is WantValue {
                    let k = mode->WantValue_0;
                    lemma_obj_insert_wf(es, k, v);
                    let st = rest.push(
                        FrameData::ObjFrame(
                            spec_obj_insert(es, k, v),
                            ObjModeData::WantCommaOrEnd,
                        ),
                    );
                    assert forall|i: int| 0 <= i < st.len() implies frame_wf(
                        #[trigger] st[i],
                    ) by {
                        if i < rest.len() {
                            assert(st[i] == rest[i]);
                        }
                    }
                }
            },
        }
    }
}

/// One machine step preserves well-formedness.
#[verifier::rlimit(100)]
proof fn lemma_step_wf(stack: Seq<FrameData>, t: TokData)
    requires
        stack_wf(stack),
        tok_wf(t),
    ensures
        match spec_step(stack, t) {
            StepData::StepDone(d) => wf_data(d),
            StepData::StepMore(st) => stack_wf(st),
            StepData::StepFail => true,
        },
{
    if stack.len() == 0 {
        match leaf_of(t) {
            Some(v) => {
                assert(wf_data(v));
            },
            None => {
                if t is LeftBrace {
                    let st = seq![
                        FrameData::ObjFrame(
                            Seq::<(Seq<char>, JsonData)>::empty(),
                            ObjModeData::WantKeyOrEnd,
                        ),
                    ];
                    assert(stack_wf(st));
                } else if t is LeftBracket {
                    let st = seq![FrameData::ArrFrame(Seq::<JsonData>::empty())];
                    assert(stack_wf(st));
                }
            },
        }
    } else {
        let rest = stack.drop_last();
        assert(frame_wf(stack.last()));
        assert forall|i: int| 0 <= i < rest.len() implies frame_wf(#[trigger] rest[i]) by {
            assert(rest[i] == stack[i]);
        }
        if t is LeftBrace || t is LeftBracket {
            // a fresh, empty frame opens on top of the unchanged stack
            match spec_step(stack, t) {
                StepData::StepMore(st) => {
                    assert forall|i: int| 0 <= i < st.len() implies frame_wf(
                        #[trigger] st[i],
                    ) by {
                        if i < stack.len() {
                            assert(st[i] == stack[i]);
                        }
                    }
                },
                _ => {},
            }
        } else {
            match stack.last() {
                FrameData::ArrFrame(items) => match t {
                    TokData::RightBracket => {
                        lemma_put_wf(rest, JsonData::Array(items));
                    },
                    TokData::Comma => {},
                    _ => match leaf_of(t) {
                        Some(v) => {
                            assert(wf_data(v));
                            assert(spec_step(stack, t) == spec_put(stack, v));
                            lemma_put_wf(stack, v);
                        },
                        None => {},
                    },
                },
                FrameData::ObjFrame(es, mode) => match mode {
                    ObjModeData::WantKeyOrEnd => match t {
                        TokData::RightBrace => {
                            lemma_put_wf(rest, JsonData::Object(es));
                        },
                        TokData::Text(k) => {
                            let st = rest.push(
                                FrameData::ObjFrame(es, ObjModeData::WantColon(k)),
                            );
                            assert forall|i: int| 0 <= i < st.len() implies frame_wf(
                                #[trigger] st[i],
                            ) by {
                                if i < rest.len() {
                                    assert(st[i] == rest[i]);
                                }
                            }
                        },
                        _ => {},
                    },
                    ObjModeData::WantColon(k) => {
                        if t is Colon {
                            let st = rest.push(
                                FrameData::ObjFrame(es, ObjModeData::WantValue(k)),
                            );
                            assert forall|i: int| 0 <= i < st.len() implies frame_wf(
                                #[trigger] st[i],
                            ) by {
                                if i < rest.len() {
                                    assert(st[i] == rest[i]);
                                }
                            }
                        }
                    },
                    ObjModeData::WantValue(k) => match leaf_of(t) {
                        Some(v) => {
                            assert(wf_data(v));
                            assert(spec_step(stack, t) == spec_put(stack, v));
                            lemma_put_wf(stack, v);
                        },
                        None => {},
                    },
                    ObjModeData::WantCommaOrEnd => match t {
                        TokData::Comma => {
                            let st = rest.push(
                                FrameData::ObjFrame(es, ObjModeData::WantKeyOrEnd),
                            );
                            assert forall|i: int| 0 <= i < st.len() implies frame_wf(
                                #[trigger] st[i],
                            ) by {
                                if i < rest.len() {
                                    assert(st[i] == rest[i]);
                                }
                            }
                        },
                        TokData::RightBrace => {
                            lemma_put_wf(rest, JsonData::Object(es));
                        },
                        _ => {},
                    },
                },
            }
        }
    }
}

/// A machine run over well-formed tokens yields a well-formed value.
proof fn lemma_run_wf(toks: Seq<TokData>, stack: Seq<FrameData>)
    requires
        toks_wf(toks),
        stack_wf(stack),
    ensures
        spec_run(toks, stack) matches Some(v) ==> wf_data(v),
    decreases toks.len(),
{
    if toks.len() > 0 {
        lemma_step_wf(stack, toks[0]);
        match spec_step(stack, toks[0]) {
            StepData::StepMore(st) => {
                assert forall|i: int| 0 <= i < toks.drop_first().len() implies tok_wf(
                    #[trigger] toks.drop_first()[i],
                ) by {
                    assert(toks.drop_first()[i] == toks[i + 1]);
                }
                lemma_run_wf(toks.drop_first(), st);
            },
            _ => {},
        }
    }
}

/// Every token the lexer reports carries a well-formed payload.
proof fn lemma_tokens_from_wf(s: Seq<char>, i: int)
    requires
        0 <= i <= s.len(),
    ensures
        toks_wf(tokens_from(s, i).0),
    decreases s.len() - i,
{
    crate::json_lexer::lemma_next_token_at(s, i);
    match next_token_at(s, i) {
        LexStep::LexTok(t, j) => {
            lemma_tokens_from_wf(s, j);
            let rest = tokens_from(s, j).0;
            assert forall|k: int| 0 <= k < (seq![t] + rest).len() implies tok_wf(
                #[trigger] (seq![t] + rest)[k],
            ) by {
                if k > 0 {
                    assert((seq![t] + rest)[k] == rest[k - 1]);
                }
            }
        },
        _ => {},
    }
}

/// Law: every successfully parsed document is well-formed: keys are unique
/// in each of its objects and its number texts satisfy the number grammar.
pub proof fn lemma_parse_text_wf(s: Seq<char>)
    ensures
        crate::spec_parse_text(s) matches Some(v) ==> wf_data(v),
{
    let (ts, ok) = crate::json_lexer::spec_tokenize(s);
    if ok {
        lemma_tokens_from_wf(s, 0);
        lemma_run_wf(ts, Seq::empty());
    }
}

/// A key that dumps verbatim and lexes back unchanged: it holds no quote
/// and no backslash.
pub open spec fn key_plain(k: Seq<char>) -> bool {
    forall|i: int| 0 <= i < k.len() ==> #[trigger] k[i] != '"' && k[i] != '\\'
}

/// A tree whose dump lexes back token for token: keys are unique and
/// plain, string values lie in the Basic Multilingual Plane, and number
/// texts satisfy the number grammar.
pub open spec fn dump_safe(v: JsonData) -> bool
    decreases v,
{
    match v {
        JsonData::Null => true,
        JsonData::Boolean(_) => true,
        JsonData::Number(t) => is_number_text(t),
        JsonData::Text(s) => all_bmp(s),
        JsonData::Array(els) => forall|i: int|
            0 <= i < els.len() ==> dump_safe(#[trigger] els[i]),
        JsonData::Object(es) => keys_unique(es) && (forall|i: int|
            0 <= i < es.len() ==> key_plain(#[trigger] es[i].0)) && (forall|i: int|
            0 <= i < es.len() ==> dump_safe(#[trigger] es[i].1)),
    }
}

pub proof fn lemma_dump_safe_uniq(v: JsonData)
    requires
        dump_safe(v),
    ensures
        uniq_data(v),
    decreases v,
{
    match v {
        JsonData::Array(els) => {
            assert forall|i: int| 0 <= i < els.len() implies uniq_data(#[trigger] els[i]) by {
                lemma_dump_safe_uniq(els[i]);
            }
        },
        JsonData::Object(es) => {
            assert forall|i: int| 0 <= i < es.len() implies uniq_data(#[trigger] es[i].1) by {
                lemma_dump_safe_uniq(es[i].1);
            }
        },
        _ => {},
    }
}

/// A whitespace run from `i` that stops exactly at `j`.
proof fn lemma_skip_ws_run(t: Seq<char>, i: int, j: int)
    requires
        0 <= i <= j <= t.len(),
        forall|k: int| i <= k < j ==> is_ws(#[trigger] t[k]),
        j == t.len() || !is_ws(t[j]),
    ensures
        skip_ws(t, i) == j,
    decreases j - i,
{
    if i < j {
        lemma_skip_ws_run(t, i + 1, j);
    }
}

/// Lexing ignores where inside a whitespace run it starts.
proof fn lemma_tokens_from_ws(t: Seq<char>, i: int, i2: int)
    requires
        0 <= i <= t.len(),
        0 <= i2 <= t.len(),
        skip_ws(t, i) == skip_ws(t, i2),
    ensures
        tokens_from(t, i) == tokens_from(t, i2),
{
    assert(next_token_at(t, i) == next_token_at(t, i2));
}

/// A run of number characters from `i` that stops exactly at `j`.
proof fn lemma_number_end_at(t: Seq<char>, i: int, j: int)
    requires
        0 <= i <= j <= t.len(),
        forall|k: int| i <= k < j ==> is_number_char(#[trigger] t[k]),
        j == t.len() || !is_number_char(t[j]),
    ensures
        number_end(t, i) == j,
    decreases j - i,
{
    if i < j {
        lemma_number_end_at(t, i + 1, j);
    }
}

/// A run of letters from `i` that stops exactly at `j`.
proof fn lemma_alpha_end_at(t: Seq<char>, i: int, j: int)
    requires
        0 <= i <= j <= t.len(),
        forall|k: int| i <= k < j ==> is_alpha(#[trigger] t[k]),
        j == t.len() || !is_alpha(t[j]),
    ensures
        alpha_end(t, i) == j,
    decreases j - i,
{
    if i < j {
        lemma_alpha_end_at(t, i + 1, j);
    }
}

/// Every character of a number text is in the number scanner's set.
proof fn lemma_number_text_chars(tx: Seq<char>)
    requires
        is_number_text(tx),
    ensures
        forall|k: int| 0 <= k < tx.len() ==> is_number_char(#[trigger] tx[k]),
        tx.len() >= 1,
        is_number_char(tx[0]),
{
    let i1 = crate::json_number::sign_end(tx, 0);
    let j = crate::json_number::digits_end(tx, i1);
    crate::json_number::lemma_digits_end(tx, i1);
    let m = crate::json_number::mantissa_end(tx);
    if j < tx.len() && tx[j] == '.' {
        crate::json_number::lemma_digits_end(tx, j + 1);
    }
    if m < tx.len() {
        let es = crate::json_number::sign_end(tx, m + 1);
        crate::json_number::lemma_digits_end(tx, es);
    }
}

/// Scanning plain string content (no quote, no backslash) followed by a
/// closing quote recovers the content verbatim.
proof fn lemma_scan_raw(t: Seq<char>, i: int, s: Seq<char>)
    requires
        key_plain(s),
        0 <= i,
        i + s.len() < t.len(),
        forall|k: int| 0 <= k < s.len() ==> t[i + k] == #[trigger] s[k],
        t[i + s.len()] == '"',
    ensures
        scan_string(t, i) == Some((s, i + s.len() + 1)),
    decreases s.len(),
{
    if s.len() == 0 {
        assert(t[i] == '"');
    } else {
        let srest = s.drop_first();
        assert forall|k: int| 0 <= k < srest.len() implies t[i + 1 + k] == #[trigger] srest[k] by {
            assert(srest[k] == s[k + 1]);
            assert(t[i + (k + 1)] == s[k + 1]);
        }
        lemma_scan_raw(t, i + 1, srest);
        assert(t[i + 0] == s[0]);
        assert(s[0] != '"' && s[0] != '\\');
        assert(seq![s[0]] + srest =~= s);
    }
}

/// The characters of a subrange, pointwise.
proof fn lemma_subrange_chars(t: Seq<char>, i: int, d: Seq<char>)
    requires
        0 <= i,
        i + d.len() <= t.len(),
        t.subrange(i, i + d.len()) == d,
    ensures
        forall|k: int| 0 <= k < d.len() ==> t[i + k] == #[trigger] d[k],
{
    assert forall|k: int| 0 <= k < d.len() implies t[i + k] == #[trigger] d[k] by {
        assert(t.subrange(i, i + d.len())[k] == t[i + k]);
    }
}

/// After a dumped value the lexer stands at a delimiter: a comma, a line
/// break, a closing bracket or brace, or the end of the text.
pub open spec fn lex_delim(t: Seq<char>, j: int) -> bool {
    j == t.len() || t[j] == ',' || t[j] == '\n' || t[j] == ']' || t[j] == '}'
}

/// A dump is never empty and never starts with whitespace.
proof fn lemma_dump_first(v: JsonData, ind: nat, cur: nat)
    requires
        dump_safe(v),
    ensures
        spec_dump_data(v, ind, true, cur).len() >= 1,
        !is_ws(spec_dump_data(v, ind, true, cur)[0]),
    decreases v,
{
    match v {
        JsonData::Number(tx) => {
            lemma_number_text_chars(tx);
        },
        _ => {},
    }
}

/// Lexing a dumped value reads exactly its token rendering and goes on
/// from the position after the dump.
#[verifier::rlimit(100)]
pub proof fn lemma_lex_dump(t: Seq<char>, i: int, v: JsonData, ind: nat, cur: nat)
    requires
        dump_safe(v),
        0 <= i,
        i + spec_dump_data(v, ind, true, cur).len() <= t.len(),
        t.subrange(i, i + spec_dump_data(v, ind, true, cur).len()) == spec_dump_data(
            v,
            ind,
            true,
            cur,
        ),
        lex_delim(t, i + spec_dump_data(v, ind, true, cur).len()),
    ensures
        ({
            let j = i + spec_dump_data(v, ind, true, cur).len();
            tokens_from(t, i) == (toks_of(v) + tokens_from(t, j).0, tokens_from(t, j).1)
        }),
    decreases v,
{
    let d = spec_dump_data(v, ind, true, cur);
    let j = i + d.len();
    lemma_subrange_chars(t, i, d);
    reveal_with_fuel(tokens_from, 3);
    match v {
        JsonData::Null => {
            assert(t[i + 0] == d[0] && t[i + 1] == d[1] && t[i + 2] == d[2] && t[i + 3] == d[3]);
            lemma_skip_ws_run(t, i, i);
            lemma_alpha_end_at(t, i, j);
            assert(t.subrange(i, j) =~= seq!['n', 'u', 'l', 'l']);
            assert(next_token_at(t, i) == LexStep::LexTok(TokData::Null, j));
            assert(tokens_from(t, i) == (
                seq![TokData::Null] + tokens_from(t, j).0,
                tokens_from(t, j).1,
            ));
            assert(seq![TokData::Null] + tokens_from(t, j).0 =~= toks_of(v) + tokens_from(
                t,
                j,
            ).0);
        },
        JsonData::Boolean(b) => {
            if b {
                assert(t[i + 0] == d[0] && t[i + 1] == d[1] && t[i + 2] == d[2] && t[i + 3]
                    == d[3]);
                lemma_skip_ws_run(t, i, i);
                lemma_alpha_end_at(t, i, j);
                assert(t.subrange(i, j) =~= seq!['t', 'r', 'u', 'e']);
                assert(next_token_at(t, i) == LexStep::LexTok(TokData::Boolean(true), j));
            } else {
                assert(t[i + 0] == d[0] && t[i + 1] == d[1] && t[i + 2] == d[2] && t[i + 3]
                    == d[3] && t[i + 4] == d[4]);
                lemma_skip_ws_run(t, i, i);
                lemma_alpha_end_at(t, i, j);
                assert(t.subrange(i, j) =~= seq!['f', 'a', 'l', 's', 'e']);
                assert(t.subrange(i, j) != seq!['t', 'r', 'u', 'e']);
                assert(next_token_at(t, i) == LexStep::LexTok(TokData::Boolean(false), j));
            }
            assert(seq![TokData::Boolean(b)] + tokens_from(t, j).0 =~= toks_of(v) + tokens_from(
                t,
                j,
            ).0);
        },
        JsonData::Number(tx) => {
            lemma_number_text_chars(tx);
            assert(t[i + 0] == d[0]);
            assert(is_number_char(t[i]));
            assert(!is_ws(t[i]));
            lemma_skip_ws_run(t, i, i);
            assert forall|k: int| i <= k < j implies is_number_char(#[trigger] t[k]) by {
                assert(t[i + (k - i)] == d[k - i]);
            }
            lemma_number_end_at(t, i, j);
            assert(t.subrange(i, j) =~= tx);
            assert(t[i] != '"');
            assert(next_token_at(t, i) == LexStep::LexTok(TokData::Number(tx), j));
            assert(seq![TokData::Number(tx)] + tokens_from(t, j).0 =~= toks_of(v) + tokens_from(
                t,
                j,
            ).0);
        },
        JsonData::Text(s) => {
            let esc = spec_escape(s);
            assert(d =~= seq!['"'] + esc + seq!['"']);
            assert(t[i + 0] == d[0] && d[0] == '"');
            lemma_skip_ws_run(t, i, i);
            assert(t.subrange(i + 1, i + 1 + esc.len()) =~= esc) by {
                assert forall|k: int| 0 <= k < esc.len() implies t.subrange(
                    i + 1,
                    i + 1 + esc.len(),
                )[k] == esc[k] by {
                    assert(t[i + (1 + k)] == d[1 + k]);
                    assert(d[1 + k] == esc[k]);
                }
            }
            assert(t[i + (1 + esc.len())] == d[1 + esc.len() as int]);
            assert(d[1 + esc.len() as int] == '"');
            lemma_scan_escaped(t, i + 1, s);
            assert(next_token_at(t, i) == LexStep::LexTok(TokData::Text(s), j));
            assert(seq![TokData::Text(s)] + tokens_from(t, j).0 =~= toks_of(v) + tokens_from(
                t,
                j,
            ).0);
        },
        JsonData::Array(els) => {
            assert(t[i + 0] == d[0] && d[0] == '[');
            lemma_skip_ws_run(t, i, i);
            assert(next_token_at(t, i) == LexStep::LexTok(TokData::LeftBracket, i + 1));
            if els.len() == 0 {
                assert(t[i + 1] == d[1] && d[1] == ']');
                lemma_skip_ws_run(t, i + 1, i + 1);
                assert(next_token_at(t, i + 1) == LexStep::LexTok(TokData::RightBracket, i + 2));
                assert(toks_of(v) =~= seq![TokData::LeftBracket, TokData::RightBracket]);
                assert(seq![TokData::LeftBracket] + (seq![TokData::RightBracket] + tokens_from(
                    t,
                    j,
                ).0) =~= toks_of(v) + tokens_from(t, j).0);
            } else {
                let items = spec_dump_items(els, ind, true, (cur + ind) as nat);
                assert(d =~= seq!['[', '\n'] + items + spec_indent(cur) + seq![']']);
                assert(t[i + 1] == d[1] && d[1] == '\n');
                assert(skip_ws(t, i + 1) == skip_ws(t, i + 2));
                lemma_tokens_from_ws(t, i + 1, i + 2);
                let i2 = i + 2;
                let q = i2 + items.len();
                assert(t.subrange(i2, q) =~= items) by {
                    assert forall|k: int| 0 <= k < items.len() implies t.subrange(i2, q)[k]
                        == items[k] by {
                        assert(t[i + (2 + k)] == d[2 + k]);
                        assert(d[2 + k] == items[k]);
                    }
                }
                lemma_lex_items(t, i2, els, ind, (cur + ind) as nat);
                assert forall|k: int| q <= k < q + cur implies is_ws(#[trigger] t[k]) by {
                    assert(t[i + (k - i)] == d[k - i]);
                    assert(d[k - i] == spec_indent(cur)[k - i - 2 - items.len()]);
                }
                assert(t[i + (d.len() - 1)] == d[d.len() - 1]);
                assert(d[d.len() - 1] == ']');
                assert(q + cur == j - 1);
                lemma_skip_ws_run(t, q, q + cur);
                lemma_skip_ws_run(t, q + cur, q + cur);
                lemma_tokens_from_ws(t, q, q + cur);
                assert(next_token_at(t, q + cur) == LexStep::LexTok(TokData::RightBracket, j));
                let cont = tokens_from(t, j);
                assert(tokens_from(t, q + cur) == (
                    seq![TokData::RightBracket] + cont.0,
                    cont.1,
                ));
                assert(tokens_from(t, i2) == (
                    toks_items(els) + (seq![TokData::RightBracket] + cont.0),
                    cont.1,
                ));
                assert(tokens_from(t, i) == (
                    seq![TokData::LeftBracket] + (toks_items(els) + (seq![
                        TokData::RightBracket,
                    ] + cont.0)),
                    cont.1,
                ));
                assert(seq![TokData::LeftBracket] + (toks_items(els) + (seq![
                    TokData::RightBracket,
                ] + cont.0)) =~= toks_of(v) + cont.0);
            }
        },
        JsonData::Object(es) => {
            assert(t[i + 0] == d[0] && d[0] == '{');
            lemma_skip_ws_run(t, i, i);
            assert(next_token_at(t, i) == LexStep::LexTok(TokData::LeftBrace, i + 1));
            if es.len() == 0 {
                assert(t[i + 1] == d[1] && d[1] == '}');
                lemma_skip_ws_run(t, i + 1, i + 1);
                assert(next_token_at(t, i + 1) == LexStep::LexTok(TokData::RightBrace, i + 2));
                assert(toks_of(v) =~= seq![TokData::LeftBrace, TokData::RightBrace]);
                assert(seq![TokData::LeftBrace] + (seq![TokData::RightBrace] + tokens_from(
                    t,
                    j,
                ).0) =~= toks_of(v) + tokens_from(t, j).0);
            } else {
                let entries = spec_dump_entries(es, ind, true, (cur + ind) as nat);
                assert(d =~= seq!['{', '\n'] + entries + spec_indent(cur) + seq!['}']);
                assert(t[i + 1] == d[1] && d[1] == '\n');
                assert(skip_ws(t, i + 1) == skip_ws(t, i + 2));
                lemma_tokens_from_ws(t, i + 1, i + 2);
                let i2 = i + 2;
                let q = i2 + entries.len();
                assert(t.subrange(i2, q) =~= entries) by {
                    assert forall|k: int| 0 <= k < entries.len() implies t.subrange(i2, q)[k]
                        == entries[k] by {
                        assert(t[i + (2 + k)] == d[2 + k]);
                        assert(d[2 + k] == entries[k]);
                    }
                }
                lemma_lex_entries(t, i2, es, ind, (cur + ind) as nat);
                assert forall|k: int| q <= k < q + cur implies is_ws(#[trigger] t[k]) by {
                    assert(t[i + (k - i)] == d[k - i]);
                    assert(d[k - i] == spec_indent(cur)[k - i - 2 - entries.len()]);
                }
                assert(t[i + (d.len() - 1)] == d[d.len() - 1]);
                assert(d[d.len() - 1] == '}');
                assert(q + cur == j - 1);
                lemma_skip_ws_run(t, q, q + cur);
                lemma_skip_ws_run(t, q + cur, q + cur);
                lemma_tokens_from_ws(t, q, q + cur);
                assert(next_token_at(t, q + cur) == LexStep::LexTok(TokData::RightBrace, j));
                let cont = tokens_from(t, j);
                assert(tokens_from(t, q + cur) == (seq![TokData::RightBrace] + cont.0, cont.1));
                assert(tokens_from(t, i2) == (
                    toks_entries(es) + (seq![TokData::RightBrace] + cont.0),
                    cont.1,
                ));
                assert(tokens_from(t, i) == (
                    seq![TokData::LeftBrace] + (toks_entries(es) + (seq![
                        TokData::RightBrace,
                    ] + cont.0)),
                    cont.1,
                ));
                assert(seq![TokData::LeftBrace] + (toks_entries(es) + (seq![
                    TokData::RightBrace,
                ] + cont.0)) =~= toks_of(v) + cont.0);
            }
        },
    }
}

/// Lexing dumped array members reads their token renderings, commas
/// between them, and goes on after the members' text.
#[verifier::rlimit(100)]
pub proof fn lemma_lex_items(t: Seq<char>, i: int, els: Seq<JsonData>, ind: nat, cur: nat)
    requires
        els.len() > 0,
        forall|k: int| 0 <= k < els.len() ==> dump_safe(#[trigger] els[k]),
        0 <= i,
        i + spec_dump_items(els, ind, true, cur).len() <= t.len(),
        t.subrange(i, i + spec_dump_items(els, ind, true, cur).len()) == spec_dump_items(
            els,
            ind,
            true,
            cur,
        ),
    ensures
        ({
            let q = i + spec_dump_items(els, ind, true, cur).len();
            tokens_from(t, i) == (toks_items(els) + tokens_from(t, q).0, tokens_from(t, q).1)
        }),
    decreases els,
{
    let chunk = spec_dump_items(els, ind, true, cur);
    let q = i + chunk.len();
    lemma_subrange_chars(t, i, chunk);
    let e0 = els[0];
    let d0 = spec_dump_data(e0, ind, true, cur);
    let sep: Seq<char> = if els.len() > 1 {
        seq![',', '\n']
    } else {
        seq!['\n']
    };
    let rest_chunk = spec_dump_items(els.drop_first(), ind, true, cur);
    assert(chunk =~= spec_indent(cur) + d0 + sep + rest_chunk);
    lemma_dump_first(e0, ind, cur);
    assert forall|k: int| i <= k < i + cur implies is_ws(#[trigger] t[k]) by {
        assert(t[i + (k - i)] == chunk[k - i]);
        assert(chunk[k - i] == spec_indent(cur)[k - i]);
    }
    let i0 = i + cur;
    assert(t[i + cur] == chunk[cur as int]);
    assert(chunk[cur as int] == d0[0]);
    lemma_skip_ws_run(t, i, i0);
    lemma_skip_ws_run(t, i0, i0);
    lemma_tokens_from_ws(t, i, i0);
    let p = i0 + d0.len();
    assert(t.subrange(i0, p) =~= d0) by {
        assert forall|k: int| 0 <= k < d0.len() implies t.subrange(i0, p)[k] == d0[k] by {
            assert(t[i + (cur + k)] == chunk[cur as int + k]);
            assert(chunk[cur as int + k] == d0[k]);
        }
    }
    assert(t[i + (cur + d0.len())] == chunk[cur + d0.len() as int]);
    assert(chunk[cur + d0.len() as int] == sep[0]);
    lemma_lex_dump(t, i0, e0, ind, cur);
    if els.len() > 1 {
        assert(t[p] == ',');
        lemma_skip_ws_run(t, p, p);
        assert(next_token_at(t, p) == LexStep::LexTok(TokData::Comma, p + 1));
        assert(t[i + (cur + d0.len() + 1)] == chunk[cur + d0.len() as int + 1]);
        assert(chunk[cur + d0.len() as int + 1] == '\n');
        assert(skip_ws(t, p + 1) == skip_ws(t, p + 2));
        lemma_tokens_from_ws(t, p + 1, p + 2);
        let r = p + 2;
        assert(t.subrange(r, r + rest_chunk.len()) =~= rest_chunk) by {
            assert forall|k: int| 0 <= k < rest_chunk.len() implies t.subrange(
                r,
                r + rest_chunk.len(),
            )[k] == rest_chunk[k] by {
                assert(t[i + (cur + d0.len() + 2 + k)] == chunk[cur + d0.len() as int + 2 + k]);
                assert(chunk[cur + d0.len() as int + 2 + k] == rest_chunk[k]);
            }
        }
        assert forall|k: int| 0 <= k < els.drop_first().len() implies dump_safe(
            #[trigger] els.drop_first()[k],
        ) by {
            assert(els.drop_first()[k] == els[k + 1]);
        }
        lemma_lex_items(t, r, els.drop_first(), ind, cur);
        assert(r + rest_chunk.len() == q);
        let cont = tokens_from(t, q);
        assert(tokens_from(t, p + 1) == (
            toks_items(els.drop_first()) + cont.0,
            cont.1,
        ));
        assert(tokens_from(t, p) == (
            seq![TokData::Comma] + (toks_items(els.drop_first()) + cont.0),
            cont.1,
        ));
        assert(tokens_from(t, i0) == (
            toks_of(e0) + (seq![TokData::Comma] + (toks_items(els.drop_first()) + cont.0)),
            cont.1,
        ));
        assert(toks_of(e0) + (seq![TokData::Comma] + (toks_items(els.drop_first()) + cont.0))
            =~= toks_items(els) + cont.0);
    } else {
        assert(t[p] == '\n');
        assert(skip_ws(t, p) == skip_ws(t, p + 1));
        lemma_tokens_from_ws(t, p, p + 1);
        assert(p + 1 == q);
        let cont = tokens_from(t, q);
        assert(tokens_from(t, i0) == (toks_of(e0) + cont.0, cont.1));
        assert(toks_items(els) =~= toks_of(e0) + toks_items(els.drop_first()));
        assert(toks_items(els.drop_first()) =~= Seq::<TokData>::empty());
        assert(toks_of(e0) + cont.0 =~= toks_items(els) + cont.0);
    }
}

/// Lexing dumped object members reads key, colon and value tokens for each
/// entry, commas between entries, and goes on after the members' text.
#[verifier::rlimit(100)]
pub proof fn lemma_lex_entries(
    t: Seq<char>,
    i: int,
    es: Seq<(Seq<char>, JsonData)>,
    ind: nat,
    cur: nat,
)
    requires
        es.len() > 0,
        forall|k: int| 0 <= k < es.len() ==> key_plain(#[trigger] es[k].0),
        forall|k: int| 0 <= k < es.len() ==> dump_safe(#[trigger] es[k].1),
        0 <= i,
        i + spec_dump_entries(es, ind, true, cur).len() <= t.len(),
        t.subrange(i, i + spec_dump_entries(es, ind, true, cur).len()) == spec_dump_entries(
            es,
            ind,
            true,
            cur,
        ),
    ensures
        ({
            let q = i + spec_dump_entries(es, ind, true, cur).len();
            tokens_from(t, i) == (toks_entries(es) + tokens_from(t, q).0, tokens_from(t, q).1)
        }),
    decreases es,
{
    let chunk = spec_dump_entries(es, ind, true, cur);
    let q = i + chunk.len();
    lemma_subrange_chars(t, i, chunk);
    let key = es[0].0;
    let val = es[0].1;
    let d0 = spec_dump_data(val, ind, true, cur);
    let sep: Seq<char> = if es.len() > 1 {
        seq![',', '\n']
    } else {
        seq!['\n']
    };
    let rest_chunk = spec_dump_entries(es.drop_first(), ind, true, cur);
    assert(chunk =~= spec_indent(cur) + seq!['"'] + key + seq!['"', ':', ' '] + d0 + sep
        + rest_chunk);
    lemma_dump_first(val, ind, cur);
    assert forall|k: int| i <= k < i + cur implies is_ws(#[trigger] t[k]) by {
        assert(t[i + (k - i)] == chunk[k - i]);
        assert(chunk[k - i] == spec_indent(cur)[k - i]);
    }
    let i0 = i + cur;
    assert(t[i + cur] == chunk[cur as int]);
    assert(chunk[cur as int] == '"');
    lemma_skip_ws_run(t, i, i0);
    lemma_skip_ws_run(t, i0, i0);
    lemma_tokens_from_ws(t, i, i0);
    // the key token
    assert forall|k: int| 0 <= k < key.len() implies t[i0 + 1 + k] == #[trigger] key[k] by {
        assert(t[i + (cur + 1 + k)] == chunk[cur as int + 1 + k]);
        assert(chunk[cur as int + 1 + k] == key[k]);
    }
    let pq = i0 + 1 + key.len();
    assert(t[i + (cur + 1 + key.len())] == chunk[cur + 1 + key.len() as int]);
    assert(chunk[cur + 1 + key.len() as int] == '"');
    assert(t[i0 + 1 + key.len()] == '"');
    lemma_scan_raw(t, i0 + 1, key);
    assert(next_token_at(t, i0) == LexStep::LexTok(TokData::Text(key), pq + 1));
    // the colon
    assert(t[i + (cur + 2 + key.len())] == chunk[cur + 2 + key.len() as int]);
    assert(chunk[cur + 2 + key.len() as int] == ':');
    assert(t[pq + 1] == ':');
    lemma_skip_ws_run(t, pq + 1, pq + 1);
    assert(next_token_at(t, pq + 1) == LexStep::LexTok(TokData::Colon, pq + 2));
    // the blank before the value
    assert(t[i + (cur + 3 + key.len())] == chunk[cur + 3 + key.len() as int]);
    assert(chunk[cur + 3 + key.len() as int] == ' ');
    assert(t[pq + 2] == ' ');
    assert(skip_ws(t, pq + 2) == skip_ws(t, pq + 3));
    lemma_tokens_from_ws(t, pq + 2, pq + 3);
    // the value
    let i1 = pq + 3;
    let p = i1 + d0.len();
    assert(t.subrange(i1, p) =~= d0) by {
        assert forall|k: int| 0 <= k < d0.len() implies t.subrange(i1, p)[k] == d0[k] by {
            assert(t[i + (cur + 4 + key.len() + k)] == chunk[cur + 4 + key.len() as int + k]);
            assert(chunk[cur + 4 + key.len() as int + k] == d0[k]);
        }
    }
    assert(t[i + (cur + 4 + key.len() + d0.len())] == chunk[cur + 4 + key.len() as int + d0.len() as int]);
    assert(chunk[cur + 4 + key.len() as int + d0.len() as int] == sep[0]);
    lemma_lex_dump(t, i1, val, ind, cur);
    if es.len() > 1 {
        assert(t[p] == ',');
        lemma_skip_ws_run(t, p, p);
        assert(next_token_at(t, p) == LexStep::LexTok(TokData::Comma, p + 1));
        assert(t[i + (cur + 5 + key.len() + d0.len())] == chunk[cur + 5 + key.len() as int + d0.len() as int]);
        assert(chunk[cur + 5 + key.len() as int + d0.len() as int] == '\n');
        assert(t[p + 1] == '\n');
        assert(skip_ws(t, p + 1) == skip_ws(t, p + 2));
        lemma_tokens_from_ws(t, p + 1, p + 2);
        let r = p + 2;
        assert(t.subrange(r, r + rest_chunk.len()) =~= rest_chunk) by {
            assert forall|k: int| 0 <= k < rest_chunk.len() implies t.subrange(
                r,
                r + rest_chunk.len(),
            )[k] == rest_chunk[k] by {
                assert(t[i + (cur + 6 + key.len() + d0.len() + k)] == chunk[cur + 6 + key.len() as int + d0.len() as int + k]);
                assert(chunk[cur + 6 + key.len() as int + d0.len() as int + k] == rest_chunk[k]);
            }
        }
        assert forall|k: int| 0 <= k < es.drop_first().len() implies key_plain(
            #[trigger] es.drop_first()[k].0,
        ) && dump_safe(es.drop_first()[k].1) by {
            assert(es.drop_first()[k] == es[k + 1]);
        }
        lemma_lex_entries(t, r, es.drop_first(), ind, cur);
        assert(r + rest_chunk.len() == q);
        let cont = tokens_from(t, q);
        assert(tokens_from(t, p + 1) == (toks_entries(es.drop_first()) + cont.0, cont.1));
        assert(tokens_from(t, p) == (
            seq![TokData::Comma] + (toks_entries(es.drop_first()) + cont.0),
            cont.1,
        ));
        assert(tokens_from(t, i1) == (
            toks_of(val) + (seq![TokData::Comma] + (toks_entries(es.drop_first()) + cont.0)),
            cont.1,
        ));
        assert(tokens_from(t, pq + 1) == (
            seq![TokData::Colon] + (toks_of(val) + (seq![TokData::Comma] + (toks_entries(
                es.drop_first(),
            ) + cont.0))),
            cont.1,
        ));
        assert(tokens_from(t, i0) == (
            seq![TokData::Text(key)] + (seq![TokData::Colon] + (toks_of(val) + (seq![
                TokData::Comma,
            ] + (toks_entries(es.drop_first()) + cont.0)))),
            cont.1,
        ));
        assert(seq![TokData::Text(key)] + (seq![TokData::Colon] + (toks_of(val) + (seq![
            TokData::Comma,
        ] + (toks_entries(es.drop_first()) + cont.0)))) =~= toks_entries(es) + cont.0);
    } else {
        assert(t[p] == '\n');
        assert(skip_ws(t, p) == skip_ws(t, p + 1));
        lemma_tokens_from_ws(t, p, p + 1);
        assert(p + 1 == q);
        let cont = tokens_from(t, q);
        assert(tokens_from(t, i1) == (toks_of(val) + cont.0, cont.1));
        assert(tokens_from(t, pq + 1) == (
            seq![TokData::Colon] + (toks_of(val) + cont.0),
            cont.1,
        ));
        assert(tokens_from(t, i0) == (
            seq![TokData::Text(key)] + (seq![TokData::Colon] + (toks_of(val) + cont.0)),
            cont.1,
        ));
        assert(toks_entries(es.drop_first()) =~= Seq::<TokData>::empty());
        assert(seq![TokData::Text(key)] + (seq![TokData::Colon] + (toks_of(val) + cont.0))
            =~= toks_entries(es) + cont.0);
    }
}

/// Law: the dumped rendering of a tree re-parses to the tree itself.  For
/// every tree with unique, plain keys, string values in the Basic
/// Multilingual Plane and well-formed number texts, dumping with escaping
/// on and parsing the text back yields the original tree, whatever indent
/// width was used.
pub proof fn lemma_dump_parse_round_trip(v: JsonData, ind: nat)
    requires
        dump_safe(v),
    ensures
        crate::spec_parse_text(spec_dump_data(v, ind, true, 0)) == Some(v),
{
    let d = spec_dump_data(v, ind, true, 0);
    assert(d.subrange(0, d.len() as int) =~= d);
    lemma_lex_dump(d, 0, v, ind, 0);
    lemma_skip_ws_run(d, d.len() as int, d.len() as int);
    assert(next_token_at(d, d.len() as int) == LexStep::LexEnd);
    assert(tokens_from(d, d.len() as int) == (Seq::<TokData>::empty(), true));
    assert(tokens_from(d, 0) == (toks_of(v) + Seq::<TokData>::empty(), true));
    assert(toks_of(v) + Seq::<TokData>::empty() =~= toks_of(v));
    lemma_dump_safe_uniq(v);
    lemma_run_value(v, Seq::empty(), Seq::empty());
    assert(toks_of(v) + Seq::<TokData>::empty() =~= toks_of(v));
    assert(crate::json_parser::spec_parse(toks_of(v)) == Some(v));
}

} // verus!
