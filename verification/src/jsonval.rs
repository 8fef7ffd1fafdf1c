//! A verified parser for the JSON subset that the speech recognizer's
//! output files use: objects, arrays, strings with the standard escape
//! sequences (including `\uXXXX` with surrogate pairs), decimal numbers
//! without exponents, and the three literals.
//!
//! Numbers carry six decimal places as a saturating fixed-point count
//! of microseconds-like units, so that start times survive the trip
//! through JSON without floating point; `MICROS_CAP` bounds them far
//! beyond any wall-clock offset a recording can hold.

use vstd::prelude::*;

verus! {

use vstd::string::StrSliceExecFns;
use vstd::string::StringExecFns;
use crate::strutil::char_from_u32;
use crate::strutil::dec_val;
use crate::strutil::digit_val;
use crate::strutil::is_digit;
use crate::strutil::char_is_digit;
use crate::strutil::push_char;

/// Saturation bound for parsed numbers, in millionths.
pub const MICROS_CAP: i64 = 900_000_000_000_000_000;

/// The mathematical shape of a parsed JSON document.  Object fields
/// keep their textual order, duplicates included; lookups take the
/// last binding, as building a map from the fields in order would.
pub enum JsonVal {
    Null,
    Bool(bool),
    Num(int),
    Str(Seq<char>),
    Arr(Seq<JsonVal>),
    Obj(Seq<(Seq<char>, JsonVal)>),
}

/// A parsed JSON document.  Numbers hold their value in millionths,
/// saturated at `MICROS_CAP`.
pub enum JsonValue {
    Null,
    Bool(bool),
    Num(i64),
    Str(String),
    Arr(Vec<JsonValue>),
    Obj(Vec<(String, JsonValue)>),
}

broadcast use {
    vstd::seq::axiom_seq_index_decreases,
    vstd::seq::axiom_seq_subrange_decreases,
    vstd::std_specs::vec::axiom_vec_decreases_to_view,
};

impl JsonValue {
    /// The mathematical value of this node.
    pub open spec fn to_val(self) -> JsonVal
        decreases self,
    {
        match self {
            JsonValue::Null => JsonVal::Null,
            JsonValue::Bool(b) => JsonVal::Bool(b),
            JsonValue::Num(n) => JsonVal::Num(n as int),
            JsonValue::Str(s) => JsonVal::Str(s@),
            JsonValue::Arr(items) => JsonVal::Arr(JsonValue::seq_to_val(items@)),
            JsonValue::Obj(fields) => JsonVal::Obj(JsonValue::fields_to_val(fields@)),
        }
    }

    pub open spec fn seq_to_val(s: Seq<JsonValue>) -> Seq<JsonVal>
        decreases s,
    {
        if s.len() == 0 {
            Seq::empty()
        } else {
            JsonValue::seq_to_val(s.drop_last()).push(s.last().to_val())
        }
    }

    pub open spec fn fields_to_val(s: Seq<(String, JsonValue)>) -> Seq<(Seq<char>, JsonVal)>
        decreases s,
    {
        if s.len() == 0 {
            Seq::empty()
        } else {
            JsonValue::fields_to_val(s.drop_last()).push((s.last().0@, s.last().1.to_val()))
        }
    }
}

impl View for JsonValue {
    type V = JsonVal;

    open spec fn view(&self) -> JsonVal {
        self.to_val()
    }
}

// ---------------------------------------------------------------------------
// White space
// ---------------------------------------------------------------------------

/// The four characters JSON treats as insignificant white space.
pub open spec fn is_json_ws(c: char) -> bool {
    c == ' ' || c == '\t' || c == '\n' || c == '\r'
}

/// The position of the first non-white-space character at or after `i`.
pub open spec fn spec_ws(s: Seq<char>, i: int) -> int
    decreases s.len() - i,
{
    if 0 <= i < s.len() && is_json_ws(s[i]) {
        spec_ws(s, i + 1)
    } else {
        i
    }
}

fn char_is_json_ws(c: char) -> (r: bool)
    ensures
        r == is_json_ws(c),
{
    c == ' ' || c == '\t' || c == '\n' || c == '\r'
}

fn skip_ws(s: &str, i: usize) -> (j: usize)
    requires
        i <= s@.len(),
    ensures
        j == spec_ws(s@, i as int),
        i <= j <= s@.len(),
{
    let n = s.unicode_len();
    let mut j = i;
    while j < n && char_is_json_ws(s.get_char(j))
        invariant
            i <= j <= n,
            n == s@.len(),
            spec_ws(s@, i as int) == spec_ws(s@, j as int),
        decreases n - j,
    {
        j = j + 1;
    }
    j
}

// ---------------------------------------------------------------------------
// Strings
// ---------------------------------------------------------------------------

pub open spec fn hex_val(c: char) -> int {
    if is_digit(c) {
        digit_val(c)
    } else if 0x61 <= c as u32 && c as u32 <= 0x66 {
        c as u32 - 0x61 + 10
    } else if 0x41 <= c as u32 && c as u32 <= 0x46 {
        c as u32 - 0x41 + 10
    } else {
        -1
    }
}

pub open spec fn is_hex(c: char) -> bool {
    hex_val(c) >= 0
}

/// Value of the four hex digits at `i`, or -1 when they are missing.
pub open spec fn hex4_val(s: Seq<char>, i: int) -> int {
    if 0 <= i && i + 4 <= s.len() && is_hex(s[i]) && is_hex(s[i + 1]) && is_hex(s[i + 2]) && is_hex(
        s[i + 3],
    ) {
        hex_val(s[i]) * 0x1000 + hex_val(s[i + 1]) * 0x100 + hex_val(s[i + 2]) * 0x10 + hex_val(
            s[i + 3],
        )
    } else {
        -1
    }
}

/// The character an escape sequence denotes and the position after it;
/// `i` is the position of the character following the backslash.  A
/// `\u` escape for a high surrogate must be followed by a low-surrogate
/// escape, and the pair denotes one supplementary-plane character.
pub open spec fn spec_escape(s: Seq<char>, i: int) -> Option<(char, int)> {
    if !(0 <= i < s.len()) {
        None
    } else {
        let c = s[i];
        if c == '"' {
            Some(('"', i + 1))
        } else if c == '\\' {
            Some(('\\', i + 1))
        } else if c == '/' {
            Some(('/', i + 1))
        } else if c == 'b' {
            Some(('\u{8}', i + 1))
        } else if c == 'f' {
            Some(('\u{c}', i + 1))
        } else if c == 'n' {
            Some(('\n', i + 1))
        } else if c == 'r' {
            Some(('\r', i + 1))
        } else if c == 't' {
            Some(('\t', i + 1))
        } else if c == 'u' {
            let v = hex4_val(s, i + 1);
            if v < 0 {
                None
            } else if 0xD800 <= v < 0xDC00 {
                if i + 7 <= s.len() && s[i + 5] == '\\' && s[i + 6] == 'u' {
                    let w = hex4_val(s, i + 7);
                    if 0xDC00 <= w < 0xE000 {
                        Some(
                            (((0x10000 + (v - 0xD800) * 0x400 + (w - 0xDC00)) as u32) as char, i
                                + 11),
                        )
                    } else {
                        None
                    }
                } else {
                    None
                }
            } else if 0xDC00 <= v < 0xE000 {
                None
            } else {
                Some(((v as u32) as char, i + 5))
            }
        } else {
            None
        }
    }
}

/// The decoded content of a string token from position `i` (just after
/// the opening quote) to its closing quote, with the position after
/// that quote.
pub open spec fn spec_string_rest(s: Seq<char>, i: int) -> Option<(Seq<char>, int)>
    decreases s.len() - i,
{
    if !(0 <= i < s.len()) {
        None
    } else {
        let c = s[i];
        if c == '"' {
            Some((Seq::empty(), i + 1))
        } else if c == '\\' {
            match spec_escape(s, i + 1) {
                None => None,
                Some((d, j)) => if !(i < j <= s.len()) {
                    None
                } else {
                    match spec_string_rest(s, j) {
                        None => None,
                        Some((t, e)) => Some((seq![d] + t, e)),
                    }
                },
            }
        } else if (c as u32) < 0x20 {
            None
        } else {
            match spec_string_rest(s, i + 1) {
                None => None,
                Some((t, e)) => Some((seq![c] + t, e)),
            }
        }
    }
}

proof fn lemma_string_rest_bounds(s: Seq<char>, i: int)
    ensures
        spec_string_rest(s, i) matches Some((t, e)) ==> i < e <= s.len(),
    decreases s.len() - i,
{
    if 0 <= i < s.len() {
        if s[i] == '\\' {
            if let Some((d, j)) = spec_escape(s, i + 1) {
                if i < j <= s.len() {
                    lemma_string_rest_bounds(s, j);
                }
            }
        } else {
            lemma_string_rest_bounds(s, i + 1);
        }
    }
}

fn hex_digit(c: char) -> (r: i32)
    ensures
        r == hex_val(c),
{
    let u = c as u32;
    if 0x30 <= u && u <= 0x39 {
        (u - 0x30) as i32
    } else if 0x61 <= u && u <= 0x66 {
        (u - 0x61 + 10) as i32
    } else if 0x41 <= u && u <= 0x46 {
        (u - 0x41 + 10) as i32
    } else {
        -1
    }
}

fn parse_hex4(s: &str, i: usize) -> (r: i32)
    requires
        i <= s@.len(),
    ensures
        r == hex4_val(s@, i as int),
        -1 <= r < 0x10000,
{
    let n = s.unicode_len();
    if n < 4 || i > n - 4 {
        return -1;
    }
    let a = hex_digit(s.get_char(i));
    let b = hex_digit(s.get_char(i + 1));
    let c = hex_digit(s.get_char(i + 2));
    let d = hex_digit(s.get_char(i + 3));
    if a < 0 || b < 0 || c < 0 || d < 0 {
        return -1;
    }
    a * 0x1000 + b * 0x100 + c * 0x10 + d
}

fn parse_escape(s: &str, i: usize) -> (r: Option<(char, usize)>)
    requires
        i <= s@.len(),
    ensures
        match r {
            Some((d, j)) => spec_escape(s@, i as int) == Some((d, j as int)) && i < j <= s@.len(),
            None => spec_escape(s@, i as int) is None,
        },
{
    let n = s.unicode_len();
    if i >= n {
        return None;
    }
    let c = s.get_char(i);
    if c == '"' || c == '\\' || c == '/' {
        Some((c, i + 1))
    } else if c == 'b' {
        Some(('\u{8}', i + 1))
    } else if c == 'f' {
        Some(('\u{c}', i + 1))
    } else if c == 'n' {
        Some(('\n', i + 1))
    } else if c == 'r' {
        Some(('\r', i + 1))
    } else if c == 't' {
        Some(('\t', i + 1))
    } else if c == 'u' {
        let v = parse_hex4(s, i + 1);
        if v < 0 {
            None
        } else if 0xD800 <= v && v < 0xDC00 {
            if n >= 7 && i <= n - 7 && s.get_char(i + 5) == '\\' && s.get_char(i + 6) == 'u' {
                let w = parse_hex4(s, i + 7);
                if 0xDC00 <= w && w < 0xE000 {
                    let code: u32 = 0x10000 + ((v - 0xD800) as u32) * 0x400 + ((w - 0xDC00) as u32);
                    match char_from_u32(code) {
                        Some(d) => {
                            proof {
                                vstd::utf8::char_u32_cast(d, code);
                            }
                            Some((d, i + 11))
                        },
                        None => {
                            // the combined code point always lies in the
                            // supplementary planes, a scalar range
                            proof {
                                assert(false);
                            }
                            None
                        },
                    }
                } else {
                    None
                }
            } else {
                None
            }
        } else if 0xDC00 <= v && v < 0xE000 {
            None
        } else {
            let code: u32 = v as u32;
            match char_from_u32(code) {
                Some(d) => {
                    proof {
                        vstd::utf8::char_u32_cast(d, code);
                    }
                    Some((d, i + 5))
                },
                None => {
                    proof {
                        assert(false);
                    }
                    None
                },
            }
        }
    } else {
        None
    }
}

fn parse_string_rest(s: &str, i: usize) -> (r: Option<(String, usize)>)
    requires
        i <= s@.len(),
    ensures
        match r {
            Some((t, e)) => spec_string_rest(s@, i as int) == Some((t@, e as int)) && i < e
                <= s@.len(),
            None => spec_string_rest(s@, i as int) is None,
        },
    decreases s@.len() - i,
{
    let n = s.unicode_len();
    if i >= n {
        return None;
    }
    let c = s.get_char(i);
    if c == '"' {
        let t = String::new();
        proof {
            assert(t@ =~= Seq::<char>::empty());
        }
        Some((t, i + 1))
    } else if c == '\\' {
        match parse_escape(s, i + 1) {
            None => None,
            Some((d, j)) => {
                match parse_string_rest(s, j) {
                    None => None,
                    Some((t, e)) => {
                        let mut out = String::new();
                        push_char(&mut out, d);
                        let out = out.concat(t.as_str());
                        proof {
                            assert(out@ =~= seq![d] + t@);
                        }
                        Some((out, e))
                    },
                }
            },
        }
    } else if (c as u32) < 0x20 {
        None
    } else {
        match parse_string_rest(s, i + 1) {
            None => None,
            Some((t, e)) => {
                let mut out = String::new();
                push_char(&mut out, c);
                let out = out.concat(t.as_str());
                proof {
                    assert(out@ =~= seq![c] + t@);
                }
                Some((out, e))
            },
        }
    }
}

// ---------------------------------------------------------------------------
// Numbers
// ---------------------------------------------------------------------------

/// Position of the first non-digit character at or after `i`.
pub open spec fn digits_end(s: Seq<char>, i: int) -> int
    decreases s.len() - i,
{
    if 0 <= i < s.len() && is_digit(s[i]) {
        digits_end(s, i + 1)
    } else {
        i
    }
}

proof fn lemma_digits_end(s: Seq<char>, i: int)
    requires
        0 <= i <= s.len(),
    ensures
        i <= digits_end(s, i) <= s.len(),
        forall|k: int| i <= k < digits_end(s, i) ==> is_digit(s[k]),
        digits_end(s, i) < s.len() ==> !is_digit(s[digits_end(s, i)]),
    decreases s.len() - i,
{
    if i < s.len() && is_digit(s[i]) {
        lemma_digits_end(s, i + 1);
    }
}

/// Digit accumulation with saturation at `MICROS_CAP`.
pub open spec fn sat_acc(ds: Seq<char>) -> int
    decreases ds.len(),
{
    if ds.len() == 0 {
        0
    } else {
        let p = sat_acc(ds.drop_last());
        let v = p * 10 + digit_val(ds.last());
        if v > MICROS_CAP as int {
            MICROS_CAP as int
        } else {
            v
        }
    }
}

proof fn lemma_sat_acc_range(ds: Seq<char>)
    requires
        forall|k: int| 0 <= k < ds.len() ==> is_digit(ds[k]),
    ensures
        0 <= sat_acc(ds) <= MICROS_CAP as int,
    decreases ds.len(),
{
    if ds.len() > 0 {
        lemma_sat_acc_range(ds.drop_last());
    }
}

/// Multiplication by ten, `k` times, saturating at `MICROS_CAP`.
pub open spec fn sat_mul10(v: int, k: nat) -> int
    decreases k,
{
    if k == 0 {
        v
    } else {
        let w = sat_mul10(v, (k - 1) as nat);
        if w * 10 > MICROS_CAP as int {
            MICROS_CAP as int
        } else {
            w * 10
        }
    }
}

/// Division by ten, `k` times.
pub open spec fn shift_down(v: int, k: nat) -> int
    decreases k,
{
    if k == 0 {
        v
    } else {
        shift_down(v, (k - 1) as nat) / 10
    }
}

/// The value in millionths that integer digits `d` and fraction digits
/// `f` denote, truncated past the sixth decimal place and saturated at
/// `MICROS_CAP`.
pub open spec fn micros_of_digits(d: Seq<char>, f: Seq<char>) -> int {
    if f.len() <= 6 {
        sat_mul10(sat_acc(d + f), (6 - f.len()) as nat)
    } else {
        shift_down(sat_acc(d + f), (f.len() - 6) as nat)
    }
}

/// A JSON number token at `i`: optional minus, an integer part without
/// a superfluous leading zero, and an optional non-empty fraction.
/// Yields its value in millionths and the position after the token.
pub open spec fn spec_number(s: Seq<char>, i: int) -> Option<(int, int)> {
    let neg = 0 <= i < s.len() && s[i] == '-';
    let i1 = if neg {
        i + 1
    } else {
        i
    };
    let d_end = digits_end(s, i1);
    if !(0 <= i1 < s.len() && d_end > i1) {
        None
    } else if s[i1] == '0' && d_end != i1 + 1 {
        None
    } else {
        let dpart = s.subrange(i1, d_end);
        let has_frac = d_end < s.len() && s[d_end] == '.';
        let f_end = if has_frac {
            digits_end(s, d_end + 1)
        } else {
            d_end
        };
        if has_frac && f_end == d_end + 1 {
            None
        } else {
            let fpart = if has_frac {
                s.subrange(d_end + 1, f_end)
            } else {
                Seq::empty()
            };
            let m = micros_of_digits(dpart, fpart);
            Some(
                (
                    if neg {
                        -m
                    } else {
                        m
                    },
                    f_end,
                ),
            )
        }
    }
}

/// One saturating accumulation step.
pub open spec fn sat_step(p: int, d: int) -> int {
    if p * 10 + d > MICROS_CAP as int {
        MICROS_CAP as int
    } else {
        p * 10 + d
    }
}

/// Saturating accumulation of `ds` continued from the partial value `v`.
pub open spec fn sat_acc_from(v: int, ds: Seq<char>) -> int
    decreases ds.len(),
{
    if ds.len() == 0 {
        v
    } else {
        sat_step(sat_acc_from(v, ds.drop_last()), digit_val(ds.last()))
    }
}

/// Powers of ten.
pub open spec fn pow10(k: nat) -> int
    decreases k,
{
    if k == 0 {
        1
    } else {
        10 * pow10((k - 1) as nat)
    }
}

proof fn lemma_sat_acc_exact(ds: Seq<char>)
    requires
        forall|k: int| 0 <= k < ds.len() ==> is_digit(ds[k]),
        dec_val(ds) <= MICROS_CAP as int,
    ensures
        sat_acc(ds) == dec_val(ds),
    decreases ds.len(),
{
    if ds.len() > 0 {
        let t = ds.drop_last();
        crate::strutil::lemma_dec_val_nonneg(t);
        assert(dec_val(t) * 10 <= dec_val(ds));
        lemma_sat_acc_exact(t);
    }
}

proof fn lemma_sat_mul10_exact(v: int, k: nat)
    requires
        0 <= v,
        v * pow10(k) <= MICROS_CAP as int,
    ensures
        sat_mul10(v, k) == v * pow10(k),
    decreases k,
{
    if k > 0 {
        assert(pow10((k - 1) as nat) >= 1) by {
            lemma_pow10_pos((k - 1) as nat);
        }
        assert(v * pow10((k - 1) as nat) * 10 == v * pow10(k)) by (nonlinear_arith)
            requires
                pow10(k) == 10 * pow10((k - 1) as nat),
        ;
        assert(v * pow10((k - 1) as nat) <= v * pow10(k)) by (nonlinear_arith)
            requires
                0 <= v,
                1 <= pow10((k - 1) as nat),
                pow10(k) == 10 * pow10((k - 1) as nat),
        ;
        lemma_sat_mul10_exact(v, (k - 1) as nat);
    }
}

proof fn lemma_pow10_pos(k: nat)
    ensures
        pow10(k) >= 1,
    decreases k,
{
    if k > 0 {
        lemma_pow10_pos((k - 1) as nat);
    }
}

/// The fixed-point reading is faithful: digits whose value in
/// millionths stays under the saturation bound denote exactly that
/// value.
pub proof fn lemma_micros_exact(d: Seq<char>, f: Seq<char>)
    requires
        forall|k: int| 0 <= k < d.len() ==> is_digit(d[k]),
        forall|k: int| 0 <= k < f.len() ==> is_digit(f[k]),
        f.len() <= 6,
        dec_val(d + f) * pow10((6 - f.len()) as nat) <= MICROS_CAP as int,
    ensures
        micros_of_digits(d, f) == dec_val(d + f) * pow10((6 - f.len()) as nat),
{
    let ds = d + f;
    assert(forall|k: int| 0 <= k < ds.len() ==> is_digit(ds[k]));
    crate::strutil::lemma_dec_val_nonneg(ds);
    lemma_pow10_pos((6 - f.len()) as nat);
    assert(dec_val(ds) <= dec_val(ds) * pow10((6 - f.len()) as nat)) by (nonlinear_arith)
        requires
            0 <= dec_val(ds),
            1 <= pow10((6 - f.len()) as nat),
    ;
    lemma_sat_acc_exact(ds);
    lemma_sat_mul10_exact(dec_val(ds), (6 - f.len()) as nat);
}

proof fn lemma_sat_acc_from_zero(ds: Seq<char>)
    ensures
        sat_acc_from(0, ds) == sat_acc(ds),
    decreases ds.len(),
{
    if ds.len() > 0 {
        lemma_sat_acc_from_zero(ds.drop_last());
    }
}

proof fn lemma_sat_acc_append(a: Seq<char>, b: Seq<char>)
    ensures
        sat_acc(a + b) == sat_acc_from(sat_acc(a), b),
    decreases b.len(),
{
    if b.len() == 0 {
        assert(a + b =~= a);
    } else {
        assert((a + b).drop_last() =~= a + b.drop_last());
        assert((a + b).last() == b.last());
        lemma_sat_acc_append(a, b.drop_last());
    }
}

proof fn lemma_sat_acc_from_range(v: int, ds: Seq<char>)
    requires
        0 <= v <= MICROS_CAP as int,
        forall|k: int| 0 <= k < ds.len() ==> is_digit(ds[k]),
    ensures
        0 <= sat_acc_from(v, ds) <= MICROS_CAP as int,
    decreases ds.len(),
{
    if ds.len() > 0 {
        lemma_sat_acc_from_range(v, ds.drop_last());
    }
}

/// Accumulate the digits of `s` in `[from, to)` with saturation,
/// continuing from `start`.
fn acc_digits_from(s: &str, from: usize, to: usize, start: i64) -> (r: i64)
    requires
        from <= to <= s@.len(),
        forall|k: int| from <= k < to ==> is_digit(s@[k]),
        0 <= start <= MICROS_CAP,
    ensures
        0 <= r <= MICROS_CAP,
        r == sat_acc_from(start as int, s@.subrange(from as int, to as int)),
{
    let mut acc: i64 = start;
    let mut k = from;
    proof {
        assert(s@.subrange(from as int, from as int) =~= Seq::<char>::empty());
    }
    while k < to
        invariant
            from <= k <= to <= s@.len(),
            forall|j: int| from <= j < to ==> is_digit(s@[j]),
            0 <= acc <= MICROS_CAP,
            acc == sat_acc_from(start as int, s@.subrange(from as int, k as int)),
        decreases to - k,
    {
        let c = s.get_char(k);
        let d: i64 = ((c as u32) - 0x30) as i64;
        proof {
            assert(is_digit(s@[k as int]));
            assert(s@.subrange(from as int, k + 1 as int).drop_last() =~= s@.subrange(
                from as int,
                k as int,
            ));
            assert(s@.subrange(from as int, k + 1 as int).last() == s@[k as int]);
        }
        let v: i64 = acc * 10 + d;
        if v > MICROS_CAP {
            acc = MICROS_CAP;
        } else {
            acc = v;
        }
        k = k + 1;
    }
    acc
}

/// Multiply by ten `k` times with saturation.
fn mul10_sat(v: i64, k: usize) -> (r: i64)
    requires
        0 <= v <= MICROS_CAP,
    ensures
        r == sat_mul10(v as int, k as nat),
        0 <= r <= MICROS_CAP,
{
    let mut w: i64 = v;
    let mut n: usize = 0;
    while n < k
        invariant
            0 <= n <= k,
            0 <= w <= MICROS_CAP,
            w == sat_mul10(v as int, n as nat),
        decreases k - n,
    {
        if w > MICROS_CAP / 10 {
            proof {
                assert(sat_mul10(v as int, n as nat) * 10 > MICROS_CAP as int);
            }
            w = MICROS_CAP;
        } else {
            w = w * 10;
        }
        n = n + 1;
    }
    w
}

/// Divide by ten `k` times.
fn div10_iter(v: i64, k: usize) -> (r: i64)
    requires
        0 <= v <= MICROS_CAP,
    ensures
        r == shift_down(v as int, k as nat),
        0 <= r <= MICROS_CAP,
{
    let mut w: i64 = v;
    let mut n: usize = 0;
    while n < k
        invariant
            0 <= n <= k,
            0 <= w <= MICROS_CAP,
            w == shift_down(v as int, n as nat),
        decreases k - n,
    {
        w = w / 10;
        n = n + 1;
    }
    w
}

/// A number token at `i`, yielding its value in millionths and the
/// position after its last digit.
fn parse_number(s: &str, i: usize) -> (r: Option<(i64, usize)>)
    requires
        i <= s@.len(),
    ensures
        match r {
            Some((m, e)) => spec_number(s@, i as int) == Some((m as int, e as int)) && i < e
                <= s@.len() && -MICROS_CAP <= m <= MICROS_CAP,
            None => spec_number(s@, i as int) is None,
        },
{
    let n = s.unicode_len();
    let neg = i < n && s.get_char(i) == '-';
    let i1 = if neg {
        i + 1
    } else {
        i
    };
    proof {
        lemma_digits_end(s@, i1 as int);
    }
    if i1 >= n {
        return None;
    }
    // scan the integer digits
    let mut d_end = i1;
    while d_end < n && char_is_digit(s.get_char(d_end))
        invariant
            i1 <= d_end <= n,
            n == s@.len(),
            forall|k: int| i1 <= k < d_end ==> is_digit(s@[k]),
            digits_end(s@, i1 as int) == digits_end(s@, d_end as int),
        decreases n - d_end,
    {
        d_end = d_end + 1;
    }
    proof {
        assert(digits_end(s@, i1 as int) == d_end);
    }
    if d_end == i1 {
        return None;
    }
    if s.get_char(i1) == '0' && d_end != i1 + 1 {
        return None;
    }
    let has_frac = d_end < n && s.get_char(d_end) == '.';
    let mut f_end = if has_frac {
        d_end + 1
    } else {
        d_end
    };
    if has_frac {
        proof {
            lemma_digits_end(s@, d_end + 1 as int);
        }
        while f_end < n && char_is_digit(s.get_char(f_end))
            invariant
                d_end + 1 <= f_end <= n,
                n == s@.len(),
                forall|k: int| d_end + 1 <= k < f_end ==> is_digit(s@[k]),
                digits_end(s@, d_end + 1 as int) == digits_end(s@, f_end as int),
            decreases n - f_end,
        {
            f_end = f_end + 1;
        }
        proof {
            assert(digits_end(s@, d_end + 1 as int) == f_end);
        }
        if f_end == d_end + 1 {
            return None;
        }
    }
    let ghost dpart = s@.subrange(i1 as int, d_end as int);
    let ghost fpart = if has_frac {
        s@.subrange(d_end + 1 as int, f_end as int)
    } else {
        Seq::<char>::empty()
    };
    let int_acc = acc_digits_from(s, i1, d_end, 0);
    let all_acc = if has_frac {
        acc_digits_from(s, d_end + 1, f_end, int_acc)
    } else {
        int_acc
    };
    proof {
        lemma_sat_acc_from_zero(dpart);
        lemma_sat_acc_append(dpart, fpart);
        assert(s@.subrange(i1 as int, d_end as int) =~= dpart);
        if !has_frac {
            assert(dpart + fpart =~= dpart);
        }
        assert(all_acc == sat_acc(dpart + fpart));
        lemma_sat_acc_range(dpart + fpart);
    }
    let frac_len = if has_frac {
        f_end - (d_end + 1)
    } else {
        0
    };
    let m: i64 = if frac_len <= 6 {
        mul10_sat(all_acc, 6 - frac_len)
    } else {
        div10_iter(all_acc, frac_len - 6)
    };
    proof {
        assert(fpart.len() == frac_len);
        assert(m == micros_of_digits(dpart, fpart));
        if frac_len > 6 {
            lemma_shift_down_range(all_acc as int, (frac_len - 6) as nat);
        }
    }
    Some(
        (
            if neg {
                -m
            } else {
                m
            },
            f_end,
        ),
    )
}

proof fn lemma_shift_down_range(v: int, k: nat)
    requires
        0 <= v <= MICROS_CAP as int,
    ensures
        0 <= shift_down(v, k) <= MICROS_CAP as int,
    decreases k,
{
    if k > 0 {
        lemma_shift_down_range(v, (k - 1) as nat);
    }
}

// ---------------------------------------------------------------------------
// Values
// ---------------------------------------------------------------------------

pub broadcast proof fn lemma_seq_to_val_parts(s: Seq<JsonValue>)
    ensures
        #[trigger] JsonValue::seq_to_val(s).len() == s.len(),
        forall|i: int| 0 <= i < s.len() ==> JsonValue::seq_to_val(s)[i] == s[i].to_val(),
    decreases s.len(),
{
    if s.len() > 0 {
        lemma_seq_to_val_parts(s.drop_last());
    }
}

pub broadcast proof fn lemma_fields_to_val_parts(s: Seq<(String, JsonValue)>)
    ensures
        #[trigger] JsonValue::fields_to_val(s).len() == s.len(),
        forall|i: int|
            0 <= i < s.len() ==> JsonValue::fields_to_val(s)[i] == (s[i].0@, s[i].1.to_val()),
    decreases s.len(),
{
    if s.len() > 0 {
        lemma_fields_to_val_parts(s.drop_last());
    }
}

/// A JSON value starting exactly at `i`, and the position after it.
pub open spec fn spec_value(s: Seq<char>, i: int) -> Option<(JsonVal, int)>
    decreases s.len() - i, 0int,
{
    if !(0 <= i < s.len()) {
        None
    } else {
        let c = s[i];
        if c == 'n' {
            if i + 4 <= s.len() && s[i + 1] == 'u' && s[i + 2] == 'l' && s[i + 3] == 'l' {
                Some((JsonVal::Null, i + 4))
            } else {
                None
            }
        } else if c == 't' {
            if i + 4 <= s.len() && s[i + 1] == 'r' && s[i + 2] == 'u' && s[i + 3] == 'e' {
                Some((JsonVal::Bool(true), i + 4))
            } else {
                None
            }
        } else if c == 'f' {
            if i + 5 <= s.len() && s[i + 1] == 'a' && s[i + 2] == 'l' && s[i + 3] == 's' && s[i + 4]
                == 'e' {
                Some((JsonVal::Bool(false), i + 5))
            } else {
                None
            }
        } else if c == '"' {
            match spec_string_rest(s, i + 1) {
                None => None,
                Some((t, e)) => Some((JsonVal::Str(t), e)),
            }
        } else if c == '-' || is_digit(c) {
            match spec_number(s, i) {
                None => None,
                Some((m, e)) => Some((JsonVal::Num(m), e)),
            }
        } else if c == '[' {
            match spec_arr_first(s, i + 1) {
                None => None,
                Some((items, e)) => Some((JsonVal::Arr(items), e)),
            }
        } else if c == '{' {
            match spec_obj_first(s, i + 1) {
                None => None,
                Some((fields, e)) => Some((JsonVal::Obj(fields), e)),
            }
        } else {
            None
        }
    }
}

/// One `"key": value` pair starting at `k` (at the opening quote).
pub open spec fn spec_obj_pair(s: Seq<char>, k: int) -> Option<((Seq<char>, JsonVal), int)>
    decreases s.len() - k, 1int,
{
    if !(0 <= k < s.len() && s[k] == '"') {
        None
    } else {
        match spec_string_rest(s, k + 1) {
            None => None,
            Some((key, ek)) => if !(k < ek <= s.len()) {
                None
            } else {
                let kc = spec_ws(s, ek);
                if !(ek <= kc <= s.len()) {
                    None
                } else if !(kc < s.len() && s[kc] == ':') {
                    None
                } else {
                    let kv = spec_ws(s, kc + 1);
                    if !(kc < kv <= s.len()) {
                        None
                    } else {
                        match spec_value(s, kv) {
                            None => None,
                            Some((v, e)) => Some(((key, v), e)),
                        }
                    }
                }
            },
        }
    }
}

/// Array contents directly after `[`: either a closing bracket or the
/// elements.
pub open spec fn spec_arr_first(s: Seq<char>, i: int) -> Option<(Seq<JsonVal>, int)>
    decreases s.len() - i, 2int,
{
    if !(0 <= i <= s.len()) {
        None
    } else {
        let k = spec_ws(s, i);
        if !(i <= k <= s.len()) {
            None
        } else if k < s.len() && s[k] == ']' {
            Some((Seq::empty(), k + 1))
        } else {
            match spec_value(s, k) {
                None => None,
                Some((v, e)) => if !(k < e <= s.len()) {
                    None
                } else {
                    match spec_arr_more(s, e) {
                        None => None,
                        Some((rest, e2)) => Some((seq![v] + rest, e2)),
                    }
                },
            }
        }
    }
}

/// Array contents after an element: a comma and another element, or
/// the closing bracket.
pub open spec fn spec_arr_more(s: Seq<char>, i: int) -> Option<(Seq<JsonVal>, int)>
    decreases s.len() - i, 2int,
{
    if !(0 <= i <= s.len()) {
        None
    } else {
        let k = spec_ws(s, i);
        if !(i <= k < s.len()) {
            None
        } else if s[k] == ']' {
            Some((Seq::empty(), k + 1))
        } else if s[k] == ',' {
            let k2 = spec_ws(s, k + 1);
            if !(k < k2 <= s.len()) {
                None
            } else {
                match spec_value(s, k2) {
                    None => None,
                    Some((v, e)) => if !(k2 < e <= s.len() && i < e) {
                        None
                    } else {
                        match spec_arr_more(s, e) {
                            None => None,
                            Some((rest, e2)) => Some((seq![v] + rest, e2)),
                        }
                    },
                }
            }
        } else {
            None
        }
    }
}

/// Object contents directly after `{`.
pub open spec fn spec_obj_first(s: Seq<char>, i: int) -> Option<(Seq<(Seq<char>, JsonVal)>, int)>
    decreases s.len() - i, 2int,
{
    if !(0 <= i <= s.len()) {
        None
    } else {
        let k = spec_ws(s, i);
        if !(i <= k <= s.len()) {
            None
        } else if k < s.len() && s[k] == '}' {
            Some((Seq::empty(), k + 1))
        } else {
            match spec_obj_pair(s, k) {
                None => None,
                Some((kv, e)) => if !(k < e <= s.len()) {
                    None
                } else {
                    match spec_obj_more(s, e) {
                        None => None,
                        Some((rest, e2)) => Some((seq![kv] + rest, e2)),
                    }
                },
            }
        }
    }
}

/// Object contents after a pair: a comma and another pair, or the
/// closing brace.
pub open spec fn spec_obj_more(s: Seq<char>, i: int) -> Option<(Seq<(Seq<char>, JsonVal)>, int)>
    decreases s.len() - i, 2int,
{
    if !(0 <= i <= s.len()) {
        None
    } else {
        let k = spec_ws(s, i);
        if !(i <= k < s.len()) {
            None
        } else if s[k] == '}' {
            Some((Seq::empty(), k + 1))
        } else if s[k] == ',' {
            let k2 = spec_ws(s, k + 1);
            if !(k < k2 <= s.len()) {
                None
            } else {
                match spec_obj_pair(s, k2) {
                    None => None,
                    Some((kv, e)) => if !(k2 < e <= s.len() && i < e) {
                        None
                    } else {
                        match spec_obj_more(s, e) {
                            None => None,
                            Some((rest, e2)) => Some((seq![kv] + rest, e2)),
                        }
                    },
                }
            }
        } else {
            None
        }
    }
}

/// A whole document: one value surrounded by white space only.
pub open spec fn spec_parse_json(s: Seq<char>) -> Option<JsonVal> {
    let i = spec_ws(s, 0);
    match spec_value(s, i) {
        None => None,
        Some((v, e)) => if 0 <= e <= s.len() && spec_ws(s, e) == s.len() {
            Some(v)
        } else {
            None
        },
    }
}

fn parse_value(s: &str, i: usize) -> (r: Option<(JsonValue, usize)>)
    requires
        i <= s@.len(),
    ensures
        match r {
            Some((v, e)) => spec_value(s@, i as int) == Some((v@, e as int)) && i < e <= s@.len(),
            None => spec_value(s@, i as int) is None,
        },
    decreases s@.len() - i, 0int,
{
    broadcast use lemma_seq_to_val_parts, lemma_fields_to_val_parts;

    let n = s.unicode_len();
    if i >= n {
        return None;
    }
    let c = s.get_char(i);
    if c == 'n' {
        if n - i >= 4 && s.get_char(i + 1) == 'u' && s.get_char(i + 2) == 'l' && s.get_char(i + 3)
            == 'l' {
            Some((JsonValue::Null, i + 4))
        } else {
            None
        }
    } else if c == 't' {
        if n - i >= 4 && s.get_char(i + 1) == 'r' && s.get_char(i + 2) == 'u' && s.get_char(i + 3)
            == 'e' {
            Some((JsonValue::Bool(true), i + 4))
        } else {
            None
        }
    } else if c == 'f' {
        if n - i >= 5 && s.get_char(i + 1) == 'a' && s.get_char(i + 2) == 'l' && s.get_char(i + 3)
            == 's' && s.get_char(i + 4) == 'e' {
            Some((JsonValue::Bool(false), i + 5))
        } else {
            None
        }
    } else if c == '"' {
        match parse_string_rest(s, i + 1) {
            None => None,
            Some((t, e)) => Some((JsonValue::Str(t), e)),
        }
    } else if c == '-' || char_is_digit(c) {
        match parse_number(s, i) {
            None => None,
            Some((m, e)) => Some((JsonValue::Num(m), e)),
        }
    } else if c == '[' {
        match parse_arr_first(s, i + 1) {
            None => None,
            Some((items, e)) => Some((JsonValue::Arr(items), e)),
        }
    } else if c == '{' {
        match parse_obj_first(s, i + 1) {
            None => None,
            Some((fields, e)) => Some((JsonValue::Obj(fields), e)),
        }
    } else {
        None
    }
}

fn parse_obj_pair(s: &str, k: usize) -> (r: Option<((String, JsonValue), usize)>)
    requires
        k <= s@.len(),
    ensures
        match r {
            Some((kv, e)) => spec_obj_pair(s@, k as int) == Some(((kv.0@, kv.1@), e as int)) && k
                < e <= s@.len(),
            None => spec_obj_pair(s@, k as int) is None,
        },
    decreases s@.len() - k, 1int,
{
    let n = s.unicode_len();
    if !(k < n && s.get_char(k) == '"') {
        return None;
    }
    let (key, ek) = match parse_string_rest(s, k + 1) {
        None => {
            return None;
        },
        Some(p) => p,
    };
    let kc = skip_ws(s, ek);
    if !(kc < n && s.get_char(kc) == ':') {
        return None;
    }
    let kv = skip_ws(s, kc + 1);
    match parse_value(s, kv) {
        None => None,
        Some((v, e)) => Some(((key, v), e)),
    }
}

fn parse_arr_first(s: &str, i: usize) -> (r: Option<(Vec<JsonValue>, usize)>)
    requires
        i <= s@.len(),
    ensures
        match r {
            Some((items, e)) => spec_arr_first(s@, i as int) == Some(
                (JsonValue::seq_to_val(items@), e as int),
            ) && i <= e <= s@.len(),
            None => spec_arr_first(s@, i as int) is None,
        },
    decreases s@.len() - i, 2int,
{
    broadcast use lemma_seq_to_val_parts;

    let n = s.unicode_len();
    let k = skip_ws(s, i);
    if k < n && s.get_char(k) == ']' {
        let items: Vec<JsonValue> = Vec::new();
        proof {
            assert(JsonValue::seq_to_val(items@) =~= Seq::<JsonVal>::empty());
        }
        return Some((items, k + 1));
    }
    let (v, e) = match parse_value(s, k) {
        None => {
            return None;
        },
        Some(p) => p,
    };
    match parse_arr_more(s, e) {
        None => None,
        Some((mut rest, e2)) => {
            let ghost old_rest = rest@;
            rest.insert(0, v);
            proof {
                rest@.insert_ensures(0, v);
                assert(rest@ =~= seq![v] + old_rest);
                assert(JsonValue::seq_to_val(rest@) =~= seq![v@] + JsonValue::seq_to_val(old_rest));
            }
            Some((rest, e2))
        },
    }
}

fn parse_arr_more(s: &str, i: usize) -> (r: Option<(Vec<JsonValue>, usize)>)
    requires
        i <= s@.len(),
    ensures
        match r {
            Some((items, e)) => spec_arr_more(s@, i as int) == Some(
                (JsonValue::seq_to_val(items@), e as int),
            ) && i <= e <= s@.len(),
            None => spec_arr_more(s@, i as int) is None,
        },
    decreases s@.len() - i, 2int,
{
    broadcast use lemma_seq_to_val_parts;

    let n = s.unicode_len();
    let k = skip_ws(s, i);
    if k >= n {
        return None;
    }
    let c = s.get_char(k);
    if c == ']' {
        let items: Vec<JsonValue> = Vec::new();
        proof {
            assert(JsonValue::seq_to_val(items@) =~= Seq::<JsonVal>::empty());
        }
        return Some((items, k + 1));
    }
    if c != ',' {
        return None;
    }
    let k2 = skip_ws(s, k + 1);
    let (v, e) = match parse_value(s, k2) {
        None => {
            return None;
        },
        Some(p) => p,
    };
    match parse_arr_more(s, e) {
        None => None,
        Some((mut rest, e2)) => {
            let ghost old_rest = rest@;
            rest.insert(0, v);
            proof {
                rest@.insert_ensures(0, v);
                assert(rest@ =~= seq![v] + old_rest);
                assert(JsonValue::seq_to_val(rest@) =~= seq![v@] + JsonValue::seq_to_val(old_rest));
            }
            Some((rest, e2))
        },
    }
}

fn parse_obj_first(s: &str, i: usize) -> (r: Option<(Vec<(String, JsonValue)>, usize)>)
    requires
        i <= s@.len(),
    ensures
        match r {
            Some((fields, e)) => spec_obj_first(s@, i as int) == Some(
                (JsonValue::fields_to_val(fields@), e as int),
            ) && i <= e <= s@.len(),
            None => spec_obj_first(s@, i as int) is None,
        },
    decreases s@.len() - i, 2int,
{
    broadcast use lemma_fields_to_val_parts;

    let n = s.unicode_len();
    let k = skip_ws(s, i);
    if k < n && s.get_char(k) == '}' {
        let fields: Vec<(String, JsonValue)> = Vec::new();
        proof {
            assert(JsonValue::fields_to_val(fields@) =~= Seq::<(Seq<char>, JsonVal)>::empty());
        }
        return Some((fields, k + 1));
    }
    let (kv, e) = match parse_obj_pair(s, k) {
        None => {
            return None;
        },
        Some(p) => p,
    };
    match parse_obj_more(s, e) {
        None => None,
        Some((mut rest, e2)) => {
            let ghost old_rest = rest@;
            let ghost kvv = (kv.0@, kv.1@);
            rest.insert(0, kv);
            proof {
                rest@.insert_ensures(0, rest@[0]);
                assert(rest@ =~= seq![(rest@[0].0, rest@[0].1)] + old_rest);
                assert(JsonValue::fields_to_val(rest@) =~= seq![kvv] + JsonValue::fields_to_val(
                    old_rest,
                ));
            }
            Some((rest, e2))
        },
    }
}

fn parse_obj_more(s: &str, i: usize) -> (r: Option<(Vec<(String, JsonValue)>, usize)>)
    requires
        i <= s@.len(),
    ensures
        match r {
            Some((fields, e)) => spec_obj_more(s@, i as int) == Some(
                (JsonValue::fields_to_val(fields@), e as int),
            ) && i <= e <= s@.len(),
            None => spec_obj_more(s@, i as int) is None,
        },
    decreases s@.len() - i, 2int,
{
    broadcast use lemma_fields_to_val_parts;

    let n = s.unicode_len();
    let k = skip_ws(s, i);
    if k >= n {
        return None;
    }
    let c = s.get_char(k);
    if c == '}' {
        let fields: Vec<(String, JsonValue)> = Vec::new();
        proof {
            assert(JsonValue::fields_to_val(fields@) =~= Seq::<(Seq<char>, JsonVal)>::empty());
        }
        return Some((fields, k + 1));
    }
    if c != ',' {
        return None;
    }
    let k2 = skip_ws(s, k + 1);
    let (kv, e) = match parse_obj_pair(s, k2) {
        None => {
            return None;
        },
        Some(p) => p,
    };
    match parse_obj_more(s, e) {
        None => None,
        Some((mut rest, e2)) => {
            let ghost old_rest = rest@;
            let ghost kvv = (kv.0@, kv.1@);
            rest.insert(0, kv);
            proof {
                rest@.insert_ensures(0, rest@[0]);
                assert(rest@ =~= seq![(rest@[0].0, rest@[0].1)] + old_rest);
                assert(JsonValue::fields_to_val(rest@) =~= seq![kvv] + JsonValue::fields_to_val(
                    old_rest,
                ));
            }
            Some((rest, e2))
        },
    }
}

/// Parse one JSON document.  `None` exactly when the text is not a
/// single value of the supported grammar surrounded by white space.
pub fn parse_json(s: &str) -> (r: Option<JsonValue>)
    ensures
        match r {
            Some(v) => spec_parse_json(s@) == Some(v@),
            None => spec_parse_json(s@) is None,
        },
{
    let n = s.unicode_len();
    let i = skip_ws(s, 0);
    match parse_value(s, i) {
        None => None,
        Some((v, e)) => {
            let t = skip_ws(s, e);
            if t == n {
                Some(v)
            } else {
                None
            }
        },
    }
}

} // verus!
