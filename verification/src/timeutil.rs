//! Wall-clock times of day, parsed from the two notations the tool
//! meets: the localized `H時M分S秒` form and the numeric `HH-MM-SS`
//! form.  Time strings order tracks within a meeting and meetings
//! within a day, so the comparison here is proved to be a total
//! preorder.

use vstd::prelude::*;

verus! {

use core::cmp::Ordering;
use vstd::string::StrSliceExecFns;
use crate::strutil::all_digits;
use crate::strutil::contains_char;
use crate::strutil::dec_str;
use crate::strutil::dec_val;
use crate::strutil::find_char;
use crate::strutil::first_idx;
use crate::strutil::has_char;
use crate::strutil::lemma_first_idx;
use crate::strutil::lemma_lex_cmp_flip;
use crate::strutil::lemma_lex_cmp_trans;
use crate::strutil::lex_cmp;
use crate::strutil::parse_u32_digits;
use crate::strutil::push_char;
use crate::strutil::split_char;
use crate::strutil::split_spec;
use crate::strutil::str_lex_cmp;
use crate::strutil::trim;
use crate::strutil::trim_spec;
use crate::strutil::u64_to_string;

/// A time of day with second precision.
#[derive(Clone, Copy, PartialEq, Eq, Structural, Debug)]
pub struct WallClock {
    pub hour: u32,
    pub minute: u32,
    pub second: u32,
}

pub open spec fn wall_clock_wf(t: WallClock) -> bool {
    t.hour < 24 && t.minute < 60 && t.second < 60
}

/// Calendar-time construction: a time exists exactly for in-range
/// hour, minute and second.
pub fn from_hms(hour: u32, minute: u32, second: u32) -> (r: Option<WallClock>)
    ensures
        r is Some <==> hour < 24 && minute < 60 && second < 60,
        r is Some ==> r->0 == (WallClock { hour, minute, second }),
{
    if hour < 24 && minute < 60 && second < 60 {
        Some(WallClock { hour, minute, second })
    } else {
        None
    }
}

/// The time that three digit runs denote, when all three are numeric
/// and in range.
pub open spec fn spec_from_digits3(h: Seq<char>, m: Seq<char>, s: Seq<char>) -> Option<WallClock> {
    if all_digits(h) && all_digits(m) && all_digits(s) && 0 <= dec_val(h) < 24 && 0 <= dec_val(m)
        < 60 && 0 <= dec_val(s) < 60 {
        Some(
            WallClock {
                hour: dec_val(h) as u32,
                minute: dec_val(m) as u32,
                second: dec_val(s) as u32,
            },
        )
    } else {
        None
    }
}

fn parse_digits3(h: &str, m: &str, s: &str) -> (r: Option<WallClock>)
    ensures
        r == spec_from_digits3(h@, m@, s@),
{
    let hv = match parse_u32_digits(h) {
        Some(v) => v,
        None => {
            return None;
        },
    };
    let mv = match parse_u32_digits(m) {
        Some(v) => v,
        None => {
            return None;
        },
    };
    let sv = match parse_u32_digits(s) {
        Some(v) => v,
        None => {
            return None;
        },
    };
    from_hms(hv, mv, sv)
}

/// The localized notation: `H時M分S秒`, after trimming white space.
/// The hour part is everything before the first `時`, the minute part
/// everything between it and the first following `分`, and the second
/// part must end the string with `秒`.
pub open spec fn spec_parse_japanese(s: Seq<char>) -> Option<WallClock> {
    let t = trim_spec(s);
    let i = first_idx(t, '時');
    if !(0 <= i < t.len()) {
        None
    } else {
        let hour_part = t.subrange(0, i);
        let rest = t.subrange(i + 1, t.len() as int);
        let j = first_idx(rest, '分');
        if !(0 <= j < rest.len()) {
            None
        } else {
            let minute_part = rest.subrange(0, j);
            let rest2 = rest.subrange(j + 1, rest.len() as int);
            if !(rest2.len() > 0 && rest2.last() == '秒') {
                None
            } else {
                spec_from_digits3(hour_part, minute_part, rest2.drop_last())
            }
        }
    }
}

pub fn parse_japanese_time(value: &str) -> (r: Option<WallClock>)
    ensures
        r == spec_parse_japanese(value@),
{
    let t = trim(value);
    let n = t.unicode_len();
    let i = match find_char(t, '時') {
        Some(i) => i,
        None => {
            proof {
                lemma_first_idx(t@, '時');
            }
            return None;
        },
    };
    proof {
        lemma_first_idx(t@, '時');
    }
    let hour_part = t.substring_char(0, i);
    let rest = t.substring_char(i + 1, n);
    let j = match find_char(rest, '分') {
        Some(j) => j,
        None => {
            proof {
                lemma_first_idx(rest@, '分');
            }
            return None;
        },
    };
    proof {
        lemma_first_idx(rest@, '分');
    }
    let rn = rest.unicode_len();
    let minute_part = rest.substring_char(0, j);
    let rest2 = rest.substring_char(j + 1, rn);
    let r2n = rest2.unicode_len();
    if r2n == 0 {
        return None;
    }
    if rest2.get_char(r2n - 1) != '秒' {
        return None;
    }
    let second_part = rest2.substring_char(0, r2n - 1);
    proof {
        assert(second_part@ =~= rest2@.drop_last());
    }
    parse_digits3(hour_part, minute_part, second_part)
}

/// The numeric notation: exactly three digit runs separated by `-`.
pub open spec fn spec_parse_hyphen(s: Seq<char>) -> Option<WallClock> {
    let parts = split_spec(s, '-');
    if parts.len() == 3 {
        spec_from_digits3(parts[0], parts[1], parts[2])
    } else {
        None
    }
}

pub fn parse_hyphen_time(value: &str) -> (r: Option<WallClock>)
    ensures
        r == spec_parse_hyphen(value@),
{
    let parts = split_char(value, '-');
    if parts.len() != 3 {
        return None;
    }
    let r = parse_digits3(&parts[0], &parts[1], &parts[2]);
    proof {
        assert(parts.deep_view()[0] == parts@[0]@);
        assert(parts.deep_view()[1] == parts@[1]@);
        assert(parts.deep_view()[2] == parts@[2]@);
    }
    r
}

/// Any accepted notation: the localized form is tried first whenever
/// one of its marker characters occurs, the numeric form otherwise or
/// as a fallback.
pub open spec fn spec_parse_time(s: Seq<char>) -> Option<WallClock> {
    if (contains_char(s, '時') || contains_char(s, '分') || contains_char(s, '秒'))
        && spec_parse_japanese(s) is Some {
        spec_parse_japanese(s)
    } else {
        spec_parse_hyphen(s)
    }
}

pub broadcast proof fn lemma_spec_parse_time_wf(s: Seq<char>)
    ensures
        #[trigger] spec_parse_time(s) is Some ==> wall_clock_wf(spec_parse_time(s)->0),
{
}

pub fn parse_time_any(value: &str) -> (r: Option<WallClock>)
    ensures
        r == spec_parse_time(value@),
        r is Some ==> wall_clock_wf(r->0),
{
    if has_char(value, '時') || has_char(value, '分') || has_char(value, '秒') {
        if let Some(t) = parse_japanese_time(value) {
            return Some(t);
        }
    }
    parse_hyphen_time(value)
}

// ---------------------------------------------------------------------------
// Ordering
// ---------------------------------------------------------------------------

/// Wall-clock order: by hour, then minute, then second.
pub open spec fn spec_time_cmp(a: WallClock, b: WallClock) -> Ordering {
    if a.hour < b.hour {
        Ordering::Less
    } else if a.hour > b.hour {
        Ordering::Greater
    } else if a.minute < b.minute {
        Ordering::Less
    } else if a.minute > b.minute {
        Ordering::Greater
    } else if a.second < b.second {
        Ordering::Less
    } else if a.second > b.second {
        Ordering::Greater
    } else {
        Ordering::Equal
    }
}

/// Order of two time strings: parseable values compare by wall-clock
/// value, a parseable one sorts before an unparseable one, and two
/// unparseable ones fall back to lexicographic order.
pub open spec fn spec_compare_time_string(a: Seq<char>, b: Seq<char>) -> Ordering {
    match (spec_parse_time(a), spec_parse_time(b)) {
        (Some(x), Some(y)) => spec_time_cmp(x, y),
        (Some(_), None) => Ordering::Less,
        (None, Some(_)) => Ordering::Greater,
        (None, None) => lex_cmp(a, b),
    }
}

pub fn compare_time_string(a: &str, b: &str) -> (r: Ordering)
    ensures
        r == spec_compare_time_string(a@, b@),
{
    match (parse_time_any(a), parse_time_any(b)) {
        (Some(x), Some(y)) => {
            if x.hour < y.hour {
                Ordering::Less
            } else if x.hour > y.hour {
                Ordering::Greater
            } else if x.minute < y.minute {
                Ordering::Less
            } else if x.minute > y.minute {
                Ordering::Greater
            } else if x.second < y.second {
                Ordering::Less
            } else if x.second > y.second {
                Ordering::Greater
            } else {
                Ordering::Equal
            }
        },
        (Some(_), None) => Ordering::Less,
        (None, Some(_)) => Ordering::Greater,
        (None, None) => str_lex_cmp(a, b),
    }
}

/// `a` sorts no later than `b` under the time-string order.
pub open spec fn time_str_le(a: Seq<char>, b: Seq<char>) -> bool {
    spec_compare_time_string(a, b) != Ordering::Greater
}

pub proof fn lemma_time_str_le_total(a: Seq<char>, b: Seq<char>)
    ensures
        time_str_le(a, b) || time_str_le(b, a),
{
    if spec_parse_time(a) is None && spec_parse_time(b) is None {
        lemma_lex_cmp_flip(a, b);
        lemma_lex_cmp_flip(b, a);
    }
}

pub proof fn lemma_time_str_le_trans(a: Seq<char>, b: Seq<char>, c: Seq<char>)
    requires
        time_str_le(a, b),
        time_str_le(b, c),
    ensures
        time_str_le(a, c),
{
    if spec_parse_time(a) is None && spec_parse_time(b) is None && spec_parse_time(c) is None {
        lemma_lex_cmp_trans(a, b, c);
    }
}

// ---------------------------------------------------------------------------
// Derived values
// ---------------------------------------------------------------------------

pub open spec fn spec_seconds_since_midnight(t: WallClock) -> int {
    t.hour * 3600 + t.minute * 60 + t.second
}

impl WallClock {
    /// Seconds since midnight; used to anchor per-track segment offsets
    /// on the meeting's absolute timeline.
    pub fn num_seconds_from_midnight(&self) -> (r: u32)
        requires
            wall_clock_wf(*self),
        ensures
            r == spec_seconds_since_midnight(*self),
    {
        self.hour * 3600 + self.minute * 60 + self.second
    }
}

/// The localized rendering of a time: `H時M分S秒` without zero padding.
pub open spec fn spec_format_japanese(t: WallClock) -> Seq<char> {
    dec_str(t.hour as nat) + seq!['時'] + dec_str(t.minute as nat) + seq!['分'] + dec_str(
        t.second as nat,
    ) + seq!['秒']
}

/// Reformat a parsed time string in the localized notation; `None`
/// exactly when the input parses in no accepted notation.
pub fn format_time_japanese(value: &str) -> (r: Option<String>)
    ensures
        r is Some <==> spec_parse_time(value@) is Some,
        r is Some ==> r->0@ == spec_format_japanese(spec_parse_time(value@)->0),
{
    let t = match parse_time_any(value) {
        Some(t) => t,
        None => {
            return None;
        },
    };
    let mut s = u64_to_string(t.hour as u64);
    push_char(&mut s, '時');
    let m = u64_to_string(t.minute as u64);
    let mut s = s.concat(m.as_str());
    push_char(&mut s, '分');
    let sec = u64_to_string(t.second as u64);
    let mut s = s.concat(sec.as_str());
    push_char(&mut s, '秒');
    proof {
        assert(s@ =~= spec_format_japanese(t));
    }
    Some(s)
}

} // verus!
