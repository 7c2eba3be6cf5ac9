//! Numeric literals of the value tree.
//!
//! A `JsonNumber` carries the literal text of a number, validated against one
//! fixed grammar: an optional sign, digits with at most one decimal point (at
//! least one digit overall), and an optional exponent part.  Storing the text
//! itself gives every number a single canonical rendering, so dumping is
//! deterministic and round-trip safe by construction.

use vstd::prelude::*;
use vstd::string::StringExecFns;
use vstd::string::StrSliceExecFns;

verus! {

/// Is `c` a decimal digit?
pub open spec fn is_digit(c: char) -> bool {
    '0' as u32 <= c as u32 && c as u32 <= '9' as u32
}

/// Numeric value of a decimal digit.
pub open spec fn digit_val(c: char) -> int {
    c as u32 - '0' as u32
}

/// Index of the first non-digit character of `t` at or after `i`.
pub open spec fn digits_end(t: Seq<char>, i: int) -> int
    decreases t.len() - i
        when 0 <= i <= t.len()
{
    if i < t.len() && is_digit(t[i]) {
        digits_end(t, i + 1)
    } else {
        i
    }
}

pub proof fn lemma_digits_end(t: Seq<char>, i: int)
    requires
        0 <= i <= t.len(),
    ensures
        i <= digits_end(t, i) <= t.len(),
        forall|k: int| i <= k < digits_end(t, i) ==> is_digit(t[k]),
        digits_end(t, i) < t.len() ==> !is_digit(t[digits_end(t, i)]),
    decreases t.len() - i,
{
    if i < t.len() && is_digit(t[i]) {
        lemma_digits_end(t, i + 1);
    }
}

/// Index after an optional `+`/`-` sign at `i`.
pub open spec fn sign_end(t: Seq<char>, i: int) -> int {
    if 0 <= i < t.len() && (t[i] == '+' || t[i] == '-') {
        i + 1
    } else {
        i
    }
}

/// End of the mantissa: sign, integer digits, optional point, fraction digits.
pub open spec fn mantissa_end(t: Seq<char>) -> int {
    let j = digits_end(t, sign_end(t, 0));
    if j < t.len() && t[j] == '.' {
        digits_end(t, j + 1)
    } else {
        j
    }
}

/// How many digits the mantissa holds, before and after the point together.
pub open spec fn mantissa_digit_count(t: Seq<char>) -> int {
    let i = sign_end(t, 0);
    let j = digits_end(t, i);
    if j < t.len() && t[j] == '.' {
        (j - i) + (digits_end(t, j + 1) - (j + 1))
    } else {
        j - i
    }
}

/// The fixed number grammar: `sign? digits [. digits] [(e|E) sign? digits]`,
/// with at least one mantissa digit and, if an exponent marker is present, at
/// least one exponent digit.  Accepts `1.`, `.5`, `-0.5E-10`; rejects `.`,
/// `1e`, `+`, and the empty text.
pub open spec fn is_number_text(t: Seq<char>) -> bool {
    let m = mantissa_end(t);
    mantissa_digit_count(t) >= 1 && (m == t.len() || ((t[m] == 'e' || t[m] == 'E') && {
        let es = sign_end(t, m + 1);
        digits_end(t, es) == t.len() && t.len() - es >= 1
    }))
}

/// Integer texts: an optional sign followed by one or more digits.
pub open spec fn is_int_text(t: Seq<char>) -> bool {
    let i = sign_end(t, 0);
    digits_end(t, i) == t.len() && t.len() - i >= 1
}

/// A run of digits read from `i` satisfies `digits_end` exactly when it
/// reaches the end of the text.
pub proof fn lemma_digits_end_all(t: Seq<char>, i: int)
    requires
        0 <= i <= t.len(),
        forall|k: int| i <= k < t.len() ==> is_digit(t[k]),
    ensures
        digits_end(t, i) == t.len(),
    decreases t.len() - i,
{
    if i < t.len() {
        lemma_digits_end_all(t, i + 1);
    }
}

/// The decimal digit character of `d`.
pub open spec fn dec_digit_char(d: int) -> char {
    if d == 0 {
        '0'
    } else if d == 1 {
        '1'
    } else if d == 2 {
        '2'
    } else if d == 3 {
        '3'
    } else if d == 4 {
        '4'
    } else if d == 5 {
        '5'
    } else if d == 6 {
        '6'
    } else if d == 7 {
        '7'
    } else if d == 8 {
        '8'
    } else {
        '9'
    }
}

/// The decimal digits of `n`, most significant first.
pub open spec fn dec_digits(n: nat) -> Seq<char>
    decreases n,
{
    if n < 10 {
        seq![dec_digit_char(n as int)]
    } else {
        dec_digits(n / 10).push(dec_digit_char((n % 10) as int))
    }
}

/// The canonical decimal text of an integer.
pub open spec fn int_text(v: int) -> Seq<char> {
    if v < 0 {
        seq!['-'] + dec_digits((-v) as nat)
    } else {
        dec_digits(v as nat)
    }
}

/// Value of the digit run `t[i..j]`.
pub open spec fn digits_val(t: Seq<char>, i: int, j: int) -> int
    decreases j - i,
{
    if j <= i {
        0
    } else {
        digits_val(t, i, j - 1) * 10 + digit_val(t[j - 1])
    }
}

/// Value of an integer text.
pub open spec fn int_val(t: Seq<char>) -> int {
    if t.len() > 0 && t[0] == '-' {
        -digits_val(t, 1, t.len() as int)
    } else if t.len() > 0 && t[0] == '+' {
        digits_val(t, 1, t.len() as int)
    } else {
        digits_val(t, 0, t.len() as int)
    }
}

pub proof fn lemma_digits_val_nonneg(t: Seq<char>, i: int, j: int)
    requires
        0 <= i,
        j <= t.len(),
        forall|k: int| i <= k < j ==> is_digit(#[trigger] t[k]),
    ensures
        digits_val(t, i, j) >= 0,
    decreases j - i,
{
    if j > i {
        lemma_digits_val_nonneg(t, i, j - 1);
        assert(is_digit(t[j - 1]));
    }
}

/// Appending digits can only grow the value.
pub proof fn lemma_digits_val_mono(t: Seq<char>, i: int, j1: int, j2: int)
    requires
        0 <= i,
        j1 <= j2,
        j2 <= t.len(),
        forall|k: int| i <= k < j2 ==> is_digit(#[trigger] t[k]),
    ensures
        digits_val(t, i, j1) <= digits_val(t, i, j2),
    decreases j2 - j1,
{
    if j1 < j2 && j2 > i {
        lemma_digits_val_mono(t, i, j1, j2 - 1);
        lemma_digits_val_nonneg(t, i, j2 - 1);
        assert(is_digit(t[j2 - 1]));
        assert(digits_val(t, i, j2) == digits_val(t, i, j2 - 1) * 10 + digit_val(t[j2 - 1]));
        assert(digits_val(t, i, j2 - 1) * 10 >= digits_val(t, i, j2 - 1)) by (nonlinear_arith)
            requires
                digits_val(t, i, j2 - 1) >= 0,
        ;
    } else if j1 < j2 {
        lemma_digits_val_mono(t, i, j1, j2 - 1);
    }
}

/// The digits of `n` are digits, and reading them back yields `n`.
pub proof fn lemma_dec_digits(n: nat)
    ensures
        dec_digits(n).len() >= 1,
        forall|k: int| 0 <= k < dec_digits(n).len() ==> is_digit(#[trigger] dec_digits(n)[k]),
        digits_val(dec_digits(n), 0, dec_digits(n).len() as int) == n,
    decreases n,
{
    if n < 10 {
        let t = dec_digits(n);
        assert(t == seq![dec_digit_char(n as int)]);
        assert(digits_val(t, 0, 0) == 0);
        assert(digits_val(t, 0, 1) == digits_val(t, 0, 0) * 10 + digit_val(t[0]));
    } else {
        lemma_dec_digits(n / 10);
        let h = dec_digits(n / 10);
        let t = dec_digits(n);
        assert(t == h.push(dec_digit_char((n % 10) as int)));
        assert forall|k: int| 0 <= k < t.len() implies is_digit(#[trigger] t[k]) by {
            if k < h.len() {
                assert(t[k] == h[k]);
            }
        }
        lemma_digits_val_subrange(h, dec_digit_char((n % 10) as int));
        assert(t.len() - 1 == h.len());
        assert(digits_val(t, 0, h.len() as int) == digits_val(h, 0, h.len() as int));
        assert(digits_val(t, 0, t.len() as int) == digits_val(t, 0, t.len() - 1) * 10 + digit_val(
            t[t.len() - 1],
        ));
        assert(t[t.len() - 1] == dec_digit_char((n % 10) as int));
        assert(digit_val(dec_digit_char((n % 10) as int)) == n % 10);
        assert((n / 10) * 10 + n % 10 == n);
    }
}

/// Reading a digit run is unchanged by appending one more character after it.
pub proof fn lemma_digits_val_subrange(h: Seq<char>, c: char)
    ensures
        forall|j: int| 0 <= j <= h.len() ==> digits_val(h.push(c), 0, j) == digits_val(h, 0, j),
{
    assert forall|j: int| 0 <= j <= h.len() implies digits_val(h.push(c), 0, j) == digits_val(
        h,
        0,
        j,
    ) by {
        lemma_digits_val_prefix(h, c, j);
    }
}

proof fn lemma_digits_val_prefix(h: Seq<char>, c: char, j: int)
    requires
        0 <= j <= h.len(),
    ensures
        digits_val(h.push(c), 0, j) == digits_val(h, 0, j),
    decreases j,
{
    if j > 0 {
        lemma_digits_val_prefix(h, c, j - 1);
        assert(h.push(c)[j - 1] == h[j - 1]);
    }
}

/// Integer texts are number texts.
pub proof fn lemma_int_text_is_number(t: Seq<char>)
    requires
        is_int_text(t),
    ensures
        is_number_text(t),
{
    lemma_digits_end(t, sign_end(t, 0));
}

/// The decimal rendering of `v` reads back as `v`.
pub proof fn lemma_int_round_trip(v: int)
    ensures
        is_int_text(int_text(v)),
        int_val(int_text(v)) == v,
{
    let t = int_text(v);
    if v < 0 {
        lemma_dec_digits((-v) as nat);
        let d = dec_digits((-v) as nat);
        assert(t == seq!['-'] + d);
        assert(t[0] == '-');
        assert(!is_digit('-'));
        assert forall|k: int| 1 <= k < t.len() implies is_digit(t[k]) by {
            assert(t[k] == d[k - 1]);
        }
        lemma_digits_end_all(t, 1);
        assert(sign_end(t, 0) == 1);
        lemma_digits_val_shift(d, t, 1);
        assert(digits_val(t, 1, t.len() as int) == digits_val(d, 0, d.len() as int));
    } else {
        lemma_dec_digits(v as nat);
        let d = dec_digits(v as nat);
        assert(t == d);
        assert(is_digit(t[0]));
        assert(t[0] != '-' && t[0] != '+');
        lemma_digits_end_all(t, 0);
        assert(sign_end(t, 0) == 0);
    }
}

/// Reading digits is unchanged by an offset prefix.
proof fn lemma_digits_val_shift(d: Seq<char>, t: Seq<char>, off: int)
    requires
        off >= 0,
        t.len() == d.len() + off,
        forall|k: int| 0 <= k < d.len() ==> t[k + off] == d[k],
    ensures
        forall|j: int| 0 <= j <= d.len() ==> digits_val(t, off, j + off) == digits_val(d, 0, j),
{
    assert forall|j: int| 0 <= j <= d.len() implies digits_val(t, off, j + off) == digits_val(
        d,
        0,
        j,
    ) by {
        lemma_digits_val_shift_one(d, t, off, j);
    }
}

proof fn lemma_digits_val_shift_one(d: Seq<char>, t: Seq<char>, off: int, j: int)
    requires
        off >= 0,
        0 <= j <= d.len(),
        t.len() == d.len() + off,
        forall|k: int| 0 <= k < d.len() ==> t[k + off] == d[k],
    ensures
        digits_val(t, off, j + off) == digits_val(d, 0, j),
    decreases j,
{
    if j > 0 {
        lemma_digits_val_shift_one(d, t, off, j - 1);
        assert(t[j - 1 + off] == d[j - 1]);
    }
}

fn exec_is_digit(c: char) -> (b: bool)
    ensures
        b == is_digit(c),
{
    let u = c as u32;
    48 <= u && u <= 57
}

/// A digit run from `i` that stops exactly at `j`.
pub proof fn lemma_digits_end_at(t: Seq<char>, i: int, j: int)
    requires
        0 <= i <= j <= t.len(),
        forall|k: int| i <= k < j ==> is_digit(#[trigger] t[k]),
        j == t.len() || !is_digit(t[j]),
    ensures
        digits_end(t, i) == j,
    decreases j - i,
{
    if i < j {
        lemma_digits_end_at(t, i + 1, j);
    }
}

fn exec_dec_digit_char(d: u32) -> (c: char)
    requires
        d < 10,
    ensures
        c == dec_digit_char(d as int),
{
    if d == 0 {
        '0'
    } else if d == 1 {
        '1'
    } else if d == 2 {
        '2'
    } else if d == 3 {
        '3'
    } else if d == 4 {
        '4'
    } else if d == 5 {
        '5'
    } else if d == 6 {
        '6'
    } else if d == 7 {
        '7'
    } else if d == 8 {
        '8'
    } else {
        '9'
    }
}

/// Read an integer text as an `i64`, if its value fits.
pub fn i64_from_text(s: &str) -> (r: Option<i64>)
    ensures
        match r {
            Some(v) => is_int_text(s@) && int_val(s@) == v as int,
            None => !is_int_text(s@) || int_val(s@) < i64::MIN || int_val(s@) > i64::MAX,
        },
{
    let ghost t = s@;
    let n = s.unicode_len();
    if n == 0 {
        return None;
    }
    let c0 = s.get_char(0);
    let neg = c0 == '-';
    let ds: usize = if c0 == '-' || c0 == '+' {
        1
    } else {
        0
    };
    if n - ds == 0 {
        return None;
    }
    let limit: u64 = if neg {
        9223372036854775808
    } else {
        9223372036854775807
    };
    let mut acc: u64 = 0;
    let mut i = ds;
    while i < n
        invariant
            t == s@,
            n == t.len(),
            0 < n,
            ds <= i <= n,
            ds == sign_end(t, 0),
            ds < n,
            neg == (t[0] == '-'),
            limit == (if neg {
                9223372036854775808u64
            } else {
                9223372036854775807u64
            }),
            forall|k: int| ds <= k < i ==> is_digit(#[trigger] t[k]),
            acc == digits_val(t, ds as int, i as int),
            acc <= limit,
        decreases n - i,
    {
        let c = s.get_char(i);
        if !exec_is_digit(c) {
            proof {
                lemma_digits_end_at(t, ds as int, i as int);
            }
            return None;
        }
        let d = (c as u32 - 48) as u64;
        proof {
            assert(d == digit_val(t[i as int]));
        }
        if acc > (limit - d) / 10 {
            proof {
                assert(acc * 10 + d > limit) by (nonlinear_arith)
                    requires
                        acc > (limit - d) / 10,
                        0 <= d <= 9,
                        d <= limit,
                        acc >= 0,
                ;
                if is_int_text(t) {
                    lemma_digits_end(t, ds as int);
                    lemma_digits_val_mono(t, ds as int, i as int + 1, n as int);
                    lemma_digits_val_nonneg(t, ds as int, n as int);
                    assert(digits_val(t, ds as int, i as int + 1) == acc * 10 + d);
                    assert(digits_val(t, ds as int, n as int) > limit);
                }
            }
            return None;
        }
        proof {
            assert(acc * 10 + d <= limit) by (nonlinear_arith)
                requires
                    acc <= (limit - d) / 10,
                    0 <= d <= 9,
                    d <= limit,
                    acc >= 0,
            ;
        }
        acc = acc * 10 + d;
        i = i + 1;
    }
    proof {
        lemma_digits_end_at(t, ds as int, n as int);
        assert(is_int_text(t));
    }
    if neg {
        if acc == 9223372036854775808 {
            Some(i64::MIN)
        } else {
            Some(-(acc as i64))
        }
    } else {
        Some(acc as i64)
    }
}

/// Scan digits of `s` from char position `i`; `n` is the char length of `s`.
fn scan_digits(s: &str, i: usize, n: usize) -> (j: usize)
    requires
        n == s@.len(),
        i <= n,
    ensures
        j == digits_end(s@, i as int),
        i <= j <= n,
{
    proof {
        lemma_digits_end(s@, i as int);
    }
    let mut j = i;
    while j < n && exec_is_digit(s.get_char(j))
        invariant
            n == s@.len(),
            i <= j <= n,
            digits_end(s@, i as int) == digits_end(s@, j as int),
            forall|k: int| i <= k < j ==> is_digit(s@[k]),
        decreases n - j,
    {
        j = j + 1;
    }
    j
}

/// Does `s` satisfy the number grammar?
pub fn check_number_text(s: &str) -> (b: bool)
    ensures
        b == is_number_text(s@),
{
    let n = s.unicode_len();
    let i: usize = if n > 0 {
        let c = s.get_char(0);
        if c == '+' || c == '-' {
            1
        } else {
            0
        }
    } else {
        0
    };
    let j = scan_digits(s, i, n);
    let mut digit_count: usize = j - i;
    let mut m = j;
    if j < n && s.get_char(j) == '.' {
        let k = scan_digits(s, j + 1, n);
        digit_count = digit_count + (k - (j + 1));
        m = k;
    }
    if digit_count < 1 {
        return false;
    }
    if m == n {
        return true;
    }
    let mc = s.get_char(m);
    if !(mc == 'e' || mc == 'E') {
        return false;
    }
    let es: usize = if m + 1 < n {
        let c = s.get_char(m + 1);
        if c == '+' || c == '-' {
            m + 2
        } else {
            m + 1
        }
    } else {
        m + 1
    };
    let ee = scan_digits(s, es, n);
    ee == n && n - es >= 1
}

/// A number of the value tree: its validated literal text.
#[derive(Debug, Clone, PartialEq, Eq)]
pub struct JsonNumber {
    text: String,
}

impl View for JsonNumber {
    type V = Seq<char>;

    closed spec fn view(&self) -> Seq<char> {
        self.text@
    }
}

impl JsonNumber {
    /// Well-formed: the carried text satisfies the number grammar.
    pub open spec fn wf(self) -> bool {
        is_number_text(self@)
    }

    /// Validate `text` against the number grammar and wrap it.
    pub fn new(text: String) -> (r: Option<JsonNumber>)
        ensures
            match r {
                Some(num) => num@ == text@ && is_number_text(text@),
                None => !is_number_text(text@),
            },
    {
        if check_number_text(text.as_str()) {
            Some(JsonNumber { text })
        } else {
            None
        }
    }

    /// Validate a borrowed literal and wrap a copy of it.
    pub fn from_text(s: &str) -> (r: Option<JsonNumber>)
        ensures
            match r {
                Some(num) => num@ == s@ && is_number_text(s@),
                None => !is_number_text(s@),
            },
    {
        JsonNumber::new(String::from_str(s))
    }

    /// The canonical decimal number of an integer.
    pub fn from_i64(v: i64) -> (r: JsonNumber)
        ensures
            r@ == int_text(v as int),
            is_number_text(r@),
    {
        let neg = v < 0;
        let mut m: u64 = if v < 0 {
            (-(v as i128)) as u64
        } else {
            v as u64
        };
        let ghost m0 = m;
        let mut digits: Vec<char> = Vec::new();
        loop
            invariant_except_break
                dec_digits(m0 as nat) =~= dec_digits(m as nat) + digits@,
            ensures
                digits@ =~= dec_digits(m0 as nat),
            decreases m,
        {
            let d = (m % 10) as u32;
            let c = exec_dec_digit_char(d);
            let ghost pre = digits@;
            digits.insert(0, c);
            proof {
                assert(digits@ =~= seq![c] + pre);
                if m >= 10 {
                    assert(dec_digits((m / 10) as nat).push(dec_digit_char((m % 10) as int))
                        =~= dec_digits((m / 10) as nat) + seq![c]);
                } else {
                    assert(dec_digits(m as nat) =~= seq![c]);
                }
            }
            m = m / 10;
            if m == 0 {
                proof {
                    assert(digits@ =~= dec_digits(m0 as nat));
                }
                break;
            }
        }
        let mut out: Vec<char> = Vec::new();
        if neg {
            out.push('-');
        }
        let nd = digits.len();
        let mut j: usize = 0;
        while j < nd
            invariant
                nd == digits@.len(),
                j <= nd,
                out@ =~= (if neg {
                    seq!['-']
                } else {
                    Seq::<char>::empty()
                }) + digits@.take(j as int),
                neg == (v < 0),
                digits@ =~= dec_digits(m0 as nat),
            decreases nd - j,
        {
            proof {
                assert(digits@.take(j as int + 1) =~= digits@.take(j as int).push(
                    digits@[j as int],
                ));
            }
            let c = digits[j];
            out.push(c);
            j = j + 1;
        }
        proof {
            assert(digits@.take(nd as int) =~= digits@);
            assert(out@ =~= int_text(v as int));
            lemma_int_round_trip(v as int);
            lemma_int_text_is_number(int_text(v as int));
        }
        let text = crate::json_basic::chars_to_string(&out);
        JsonNumber { text }
    }

    /// Read this number as an integer, if its text is an integer text whose
    /// value fits in `i64`.
    pub fn to_i64(&self) -> (r: Option<i64>)
        ensures
            match r {
                Some(v) => is_int_text(self@) && int_val(self@) == v as int,
                None => !is_int_text(self@) || int_val(self@) < i64::MIN || int_val(self@)
                    > i64::MAX,
            },
    {
        i64_from_text(self.text.as_str())
    }

    /// A copy of this number carrying the same text.
    pub fn duplicate(&self) -> (r: JsonNumber)
        ensures
            r@ == self@,
    {
        JsonNumber { text: self.text.clone() }
    }

    /// The literal text carried by this number.
    pub fn as_text(&self) -> (r: &str)
        ensures
            r@ == self@,
    {
        self.text.as_str()
    }
}

} // verus!
