//! Interpretation of the speech recognizer's output.  Different
//! recognizer builds emit different JSON shapes; the functions here
//! normalize the raw text, try the known shapes in a fixed order of
//! decreasing strictness, and fall back to a plain-text transcript as
//! a last resort.  Every shape yields the same thing: recognized
//! segments, each a start offset in milliseconds and a text.

use vstd::prelude::*;

verus! {

use vstd::string::StrSliceExecFns;
use vstd::string::StringExecFns;
use crate::jsonval::JsonVal;
use crate::jsonval::JsonValue;
use crate::jsonval::lemma_fields_to_val_parts;
use crate::jsonval::lemma_seq_to_val_parts;
use crate::jsonval::parse_json;
use crate::jsonval::spec_parse_json;
use crate::strutil::all_digits;
use crate::strutil::dec_val;
use crate::strutil::find_char;
use crate::strutil::first_idx;
use crate::strutil::last_idx;
use crate::strutil::lemma_first_idx;
use crate::strutil::lemma_last_idx;
use crate::strutil::parse_u32_digits;
use crate::strutil::push_char;
use crate::strutil::split_char;
use crate::strutil::split_spec;
use crate::strutil::str_eq;
use crate::strutil::trim;
use crate::strutil::trim_spec;

/// One recognized utterance: a start offset in milliseconds relative
/// to the track's own beginning, and its text.
pub struct RecognizedSegment {
    pub start_ms: i64,
    pub text: String,
}

impl View for RecognizedSegment {
    type V = (int, Seq<char>);

    open spec fn view(&self) -> (int, Seq<char>) {
        (self.start_ms as int, self.text@)
    }
}

impl DeepView for RecognizedSegment {
    type V = (int, Seq<char>);

    open spec fn deep_view(&self) -> (int, Seq<char>) {
        self.view()
    }
}

/// Every start offset a segment can acquire here stays within this
/// bound, which keeps later re-anchoring arithmetic far from overflow.
pub const SEG_MS_BOUND: i64 = 100_000_000_000_000_000;

pub open spec fn segs_bounded(s: Seq<RecognizedSegment>) -> bool {
    forall|k: int| 0 <= k < s.len() ==> -SEG_MS_BOUND <= (#[trigger] s[k]).start_ms <= SEG_MS_BOUND
}

// ---------------------------------------------------------------------------
// Object field lookup
// ---------------------------------------------------------------------------

/// The value bound to `key`, taking the last binding as a map built
/// from the fields in order would.
pub open spec fn obj_get(fields: Seq<(Seq<char>, JsonVal)>, key: Seq<char>) -> Option<JsonVal>
    decreases fields.len(),
{
    if fields.len() == 0 {
        None
    } else if fields.last().0 == key {
        Some(fields.last().1)
    } else {
        obj_get(fields.drop_last(), key)
    }
}

/// Field lookup on a value: something only objects have.
pub open spec fn val_get(v: JsonVal, key: Seq<char>) -> Option<JsonVal> {
    match v {
        JsonVal::Obj(fields) => obj_get(fields, key),
        _ => None,
    }
}

fn value_get<'a>(v: &'a JsonValue, key: &str) -> (r: Option<&'a JsonValue>)
    ensures
        match r {
            Some(f) => val_get(v@, key@) == Some(f@),
            None => val_get(v@, key@) is None,
        },
{
    broadcast use lemma_fields_to_val_parts;

    match v {
        JsonValue::Obj(fields) => {
            let ghost fv = JsonValue::fields_to_val(fields@);
            proof {
                lemma_fields_to_val_parts(fields@);
                assert(fv.take(fields@.len() as int) =~= fv);
            }
            let mut i: usize = fields.len();
            while i > 0
                invariant
                    0 <= i <= fields@.len(),
                    fv == JsonValue::fields_to_val(fields@),
                    v@ == JsonVal::Obj(fv),
                    fv.len() == fields@.len(),
                    forall|k: int|
                        0 <= k < fields@.len() ==> #[trigger] fv[k] == (
                        fields@[k].0@,
                        fields@[k].1.to_val(),
                        ),
                    obj_get(fv, key@) == obj_get(fv.take(i as int), key@),
                decreases i,
            {
                proof {
                    assert(fv.take(i as int).last() == fv[i - 1]);
                    assert(fv.take(i as int).drop_last() =~= fv.take(i - 1 as int));
                    assert(fv[i - 1] == (fields@[i - 1 as int].0@, fields@[i - 1 as int].1.to_val()));
                }
                if str_eq(&fields[i - 1].0, key) {
                    proof {
                        assert(v@ == JsonVal::Obj(fv));
                        assert(obj_get(fv.take(i as int), key@) == Some(fv[i - 1].1));
                        assert(fv[i - 1].1 == fields@[i - 1 as int].1.to_val());
                    }
                    return Some(&fields[i - 1].1);
                }
                i = i - 1;
            }
            proof {
                assert(fv.take(0) =~= Seq::<(Seq<char>, JsonVal)>::empty());
            }
            None
        },
        _ => None,
    }
}

// ---------------------------------------------------------------------------
// Unit conversions
// ---------------------------------------------------------------------------

/// Division truncating toward zero, as the floating-point arithmetic
/// being modelled would round its small quotients.
pub open spec fn div_toward_zero(v: int, d: int) -> int {
    if v >= 0 {
        v / d
    } else {
        -((-v) / d)
    }
}

fn div_tz(v: i64, d: i64) -> (r: i64)
    requires
        1000 <= d,
    ensures
        r == div_toward_zero(v as int, d as int),
        -SEG_MS_BOUND <= r <= SEG_MS_BOUND,
{
    if v >= 0 {
        let q: u64 = (v as u64) / (d as u64);
        proof {
            assert(q * 1000 <= q * d <= v) by (nonlinear_arith)
                requires
                    q == v as int / d as int,
                    1000 <= d,
                    0 <= v,
            ;
        }
        q as i64
    } else {
        let mag: u64 = if v == i64::MIN {
            9223372036854775808u64
        } else {
            (-v) as u64
        };
        let q: u64 = mag / (d as u64);
        proof {
            assert(q * 1000 <= q * d <= mag) by (nonlinear_arith)
                requires
                    q == mag as int / d as int,
                    1000 <= d,
                    0 <= mag,
            ;
        }
        -(q as i64)
    }
}

/// Milliseconds denoted by a number in millionths when the JSON field
/// carries seconds.
pub open spec fn secs_num_to_ms(m: int) -> int {
    div_toward_zero(m, 1000)
}

/// ... when the field carries milliseconds.
pub open spec fn ms_num_to_ms(m: int) -> int {
    div_toward_zero(m, 1000000)
}

/// ... when the field carries centiseconds.
pub open spec fn cs_num_to_ms(m: int) -> int {
    div_toward_zero(m, 100000)
}

// ---------------------------------------------------------------------------
// Timestamp strings
// ---------------------------------------------------------------------------

/// Milliseconds denoted by an `H:MM:SS,mmm` timestamp string.  The
/// first three colon-separated fields are hours, minutes and seconds;
/// an optional comma part carries milliseconds and falls back to zero
/// when it is missing or not numeric.
pub open spec fn spec_timestamp_ms(s: Seq<char>) -> Option<int> {
    let parts = split_spec(s, ':');
    if parts.len() < 3 {
        None
    } else {
        let h = parts[0];
        let m = parts[1];
        let sec_field = split_spec(parts[2], ',');
        let sec = sec_field[0];
        let millis: int = if sec_field.len() >= 2 && all_digits(sec_field[1]) && dec_val(
            sec_field[1],
        ) <= u32::MAX {
            dec_val(sec_field[1])
        } else {
            0
        };
        if all_digits(h) && dec_val(h) <= u32::MAX && all_digits(m) && dec_val(m) <= u32::MAX
            && all_digits(sec) && dec_val(sec) <= u32::MAX {
            Some(dec_val(h) * 3600000 + dec_val(m) * 60000 + dec_val(sec) * 1000 + millis)
        } else {
            None
        }
    }
}

/// Parse an `H:MM:SS,mmm` timestamp into milliseconds.
pub fn parse_timestamp_millis(s: &str) -> (r: Option<i64>)
    ensures
        match r {
            Some(ms) => spec_timestamp_ms(s@) == Some(ms as int) && 0 <= ms <= SEG_MS_BOUND,
            None => spec_timestamp_ms(s@) is None,
        },
{
    let parts = split_char(s, ':');
    if parts.len() < 3 {
        return None;
    }
    proof {
        assert(parts.deep_view()[0] == parts@[0]@);
        assert(parts.deep_view()[1] == parts@[1]@);
        assert(parts.deep_view()[2] == parts@[2]@);
    }
    let h = match parse_u32_digits(&parts[0]) {
        Some(v) => v,
        None => {
            return None;
        },
    };
    let m = match parse_u32_digits(&parts[1]) {
        Some(v) => v,
        None => {
            return None;
        },
    };
    let sec_field = split_char(&parts[2], ',');
    proof {
        assert(sec_field.deep_view()[0] == sec_field@[0]@);
        assert(sec_field@.len() >= 2 ==> sec_field.deep_view()[1] == sec_field@[1]@);
        assert(sec_field.deep_view().len() > 0);
    }
    let sec = match parse_u32_digits(&sec_field[0]) {
        Some(v) => v,
        None => {
            return None;
        },
    };
    let millis: u32 = if sec_field.len() >= 2 {
        match parse_u32_digits(&sec_field[1]) {
            Some(v) => v,
            None => 0,
        }
    } else {
        0
    };
    let total: u64 = (h as u64) * 3600000 + (m as u64) * 60000 + (sec as u64) * 1000 + (
    millis as u64);
    Some(total as i64)
}

// ---------------------------------------------------------------------------
// One segment from one JSON value
// ---------------------------------------------------------------------------

/// The start offset in milliseconds that a segment object carries:
/// from a numeric `start` in seconds, else `offsets.from` in
/// milliseconds, else a `timestamps.from` string, else `t0` in
/// centiseconds, else zero.
pub open spec fn spec_seg_start_ms(fields: Seq<(Seq<char>, JsonVal)>) -> int {
    match obj_get(fields, "start"@) {
        Some(JsonVal::Num(m)) => secs_num_to_ms(m),
        _ => match obj_get(fields, "offsets"@) {
            Some(off) => match val_get(off, "from"@) {
                Some(JsonVal::Num(m)) => ms_num_to_ms(m),
                _ => 0,
            },
            None => match obj_get(fields, "timestamps"@) {
                Some(ts) => match val_get(ts, "from"@) {
                    Some(JsonVal::Str(t)) => match spec_timestamp_ms(t) {
                        Some(ms) => ms,
                        None => 0,
                    },
                    _ => 0,
                },
                None => match obj_get(fields, "t0"@) {
                    Some(JsonVal::Num(m)) => cs_num_to_ms(m),
                    _ => 0,
                },
            },
        },
    }
}

/// A structurally recognized segment: an object whose `text`, after
/// trimming, is non-empty; its start comes from `spec_seg_start_ms`.
/// The text is kept untrimmed.
pub open spec fn spec_seg_from_value(v: JsonVal) -> Option<(int, Seq<char>)> {
    match v {
        JsonVal::Obj(fields) => {
            let text = match obj_get(fields, "text"@) {
                Some(JsonVal::Str(t)) => t,
                _ => Seq::<char>::empty(),
            };
            if trim_spec(text).len() == 0 {
                None
            } else {
                Some((spec_seg_start_ms(fields), text))
            }
        },
        _ => None,
    }
}

pub fn segment_from_value(v: &JsonValue) -> (r: Option<RecognizedSegment>)
    ensures
        match r {
            Some(seg) => spec_seg_from_value(v@) == Some(seg@) && -SEG_MS_BOUND <= seg.start_ms
                <= SEG_MS_BOUND,
            None => spec_seg_from_value(v@) is None,
        },
{
    let fields_present = match v {
        JsonValue::Obj(_) => true,
        _ => false,
    };
    if !fields_present {
        return None;
    }
    let text: String = match value_get(v, "text") {
        Some(t) => {
            match t {
                JsonValue::Str(t) => t.clone(),
                _ => String::new(),
            }
        },
        None => String::new(),
    };
    let trimmed = trim(text.as_str());
    if trimmed.unicode_len() == 0 {
        return None;
    }
    let start_ms: i64 = match value_get(v, "start") {
        Some(sv) => {
            match sv {
                JsonValue::Num(m) => div_tz(*m, 1000),
                _ => seg_start_fallback(v),
            }
        },
        None => seg_start_fallback(v),
    };
    proof {
        let fields = v@->Obj_0;
        assert(start_ms as int == spec_seg_start_ms(fields));
    }
    Some(RecognizedSegment { start_ms, text })
}

// ---------------------------------------------------------------------------
// Arrays of segments
// ---------------------------------------------------------------------------

/// The segments contributed by an array's elements, keeping the ones
/// that `spec_seg_from_value` recognizes.
pub open spec fn spec_collect_segs(items: Seq<JsonVal>) -> Seq<(int, Seq<char>)>
    decreases items.len(),
{
    if items.len() == 0 {
        Seq::empty()
    } else {
        spec_collect_segs(items.drop_last()) + (match spec_seg_from_value(items.last()) {
            Some(sv) => seq![sv],
            None => Seq::empty(),
        })
    }
}

/// An array counts only when it yields at least one segment.
pub open spec fn spec_segs_from_array(items: Seq<JsonVal>) -> Option<Seq<(int, Seq<char>)>> {
    if spec_collect_segs(items).len() == 0 {
        None
    } else {
        Some(spec_collect_segs(items))
    }
}

pub fn segments_from_array(items: &Vec<JsonValue>) -> (r: Option<Vec<RecognizedSegment>>)
    ensures
        match r {
            Some(segs) => spec_segs_from_array(JsonValue::seq_to_val(items@)) == Some(
                segs.deep_view(),
            ) && segs_bounded(segs@),
            None => spec_segs_from_array(JsonValue::seq_to_val(items@)) is None,
        },
{
    broadcast use lemma_seq_to_val_parts;

    let ghost gv = JsonValue::seq_to_val(items@);
    let mut out: Vec<RecognizedSegment> = Vec::new();
    proof {
        assert(out.deep_view() =~= Seq::<(int, Seq<char>)>::empty());
        assert(gv.take(0) =~= Seq::<JsonVal>::empty());
    }
    let mut i: usize = 0;
    while i < items.len()
        invariant
            0 <= i <= items@.len(),
            gv == JsonValue::seq_to_val(items@),
            gv.len() == items@.len(),
            forall|k: int| 0 <= k < items@.len() ==> #[trigger] gv[k] == items@[k].to_val(),
            out.deep_view() == spec_collect_segs(gv.take(i as int)),
            segs_bounded(out@),
        decreases items@.len() - i,
    {
        proof {
            assert(gv.take(i + 1 as int).drop_last() =~= gv.take(i as int));
            assert(gv.take(i + 1 as int).last() == gv[i as int]);
        }
        let ghost old_out = out.deep_view();
        match segment_from_value(&items[i]) {
            Some(seg) => {
                let ghost segv = seg@;
                out.push(seg);
                proof {
                    assert(out.deep_view() =~= old_out + seq![segv]);
                }
            },
            None => {
                proof {
                    assert(out.deep_view() =~= old_out + Seq::<(int, Seq<char>)>::empty());
                }
            },
        }
        i = i + 1;
    }
    proof {
        assert(gv.take(items@.len() as int) =~= gv);
    }
    if out.len() == 0 {
        None
    } else {
        Some(out)
    }
}

/// The strict segment shape: an object carrying a numeric `start` in
/// seconds and a string `text`, both required, the text kept verbatim.
pub open spec fn spec_typed_seg(v: JsonVal) -> Option<(int, Seq<char>)> {
    match v {
        JsonVal::Obj(fields) => match (obj_get(fields, "start"@), obj_get(fields, "text"@)) {
            (Some(JsonVal::Num(m)), Some(JsonVal::Str(t))) => Some((secs_num_to_ms(m), t)),
            _ => None,
        },
        _ => None,
    }
}

/// All elements must have the strict shape, or the whole array is
/// rejected.
pub open spec fn spec_typed_segs(items: Seq<JsonVal>) -> Option<Seq<(int, Seq<char>)>>
    decreases items.len(),
{
    if items.len() == 0 {
        Some(Seq::empty())
    } else {
        match (spec_typed_segs(items.drop_last()), spec_typed_seg(items.last())) {
            (Some(rest), Some(sv)) => Some(rest.push(sv)),
            _ => None,
        }
    }
}

fn typed_segment(v: &JsonValue) -> (r: Option<RecognizedSegment>)
    ensures
        match r {
            Some(seg) => spec_typed_seg(v@) == Some(seg@) && -SEG_MS_BOUND <= seg.start_ms
                <= SEG_MS_BOUND,
            None => spec_typed_seg(v@) is None,
        },
{
    let is_obj = match v {
        JsonValue::Obj(_) => true,
        _ => false,
    };
    if !is_obj {
        return None;
    }
    let m: i64 = match value_get(v, "start") {
        Some(f) => {
            match f {
                JsonValue::Num(m) => *m,
                _ => {
                    return None;
                },
            }
        },
        None => {
            return None;
        },
    };
    match value_get(v, "text") {
        Some(f) => {
            match f {
                JsonValue::Str(t) => Some(
                    RecognizedSegment { start_ms: div_tz(m, 1000), text: t.clone() },
                ),
                _ => None,
            }
        },
        None => None,
    }
}

fn typed_segments(items: &Vec<JsonValue>) -> (r: Option<Vec<RecognizedSegment>>)
    ensures
        match r {
            Some(segs) => spec_typed_segs(JsonValue::seq_to_val(items@)) == Some(segs.deep_view())
                && segs_bounded(segs@),
            None => spec_typed_segs(JsonValue::seq_to_val(items@)) is None,
        },
{
    broadcast use lemma_seq_to_val_parts;

    let ghost gv = JsonValue::seq_to_val(items@);
    let mut out: Vec<RecognizedSegment> = Vec::new();
    proof {
        assert(out.deep_view() =~= Seq::<(int, Seq<char>)>::empty());
        assert(gv.take(0) =~= Seq::<JsonVal>::empty());
    }
    let mut i: usize = 0;
    while i < items.len()
        invariant
            0 <= i <= items@.len(),
            gv == JsonValue::seq_to_val(items@),
            gv.len() == items@.len(),
            forall|k: int| 0 <= k < items@.len() ==> #[trigger] gv[k] == items@[k].to_val(),
            spec_typed_segs(gv.take(i as int)) == Some(out.deep_view()),
            segs_bounded(out@),
        decreases items@.len() - i,
    {
        proof {
            assert(gv.take(i + 1 as int).drop_last() =~= gv.take(i as int));
            assert(gv.take(i + 1 as int).last() == gv[i as int]);
        }
        let ghost old_out = out.deep_view();
        match typed_segment(&items[i]) {
            Some(seg) => {
                let ghost segv = seg@;
                out.push(seg);
                proof {
                    assert(out.deep_view() =~= old_out.push(segv));
                }
            },
            None => {
                proof {
                    lemma_typed_segs_fail(gv, i as int);
                }
                return None;
            },
        }
        i = i + 1;
    }
    proof {
        assert(gv.take(items@.len() as int) =~= gv);
    }
    Some(out)
}

proof fn lemma_typed_segs_fail(items: Seq<JsonVal>, i: int)
    requires
        0 <= i < items.len(),
        spec_typed_seg(items[i]) is None,
    ensures
        spec_typed_segs(items) is None,
    decreases items.len(),
{
    if items.len() > 0 {
        if i < items.len() - 1 {
            lemma_typed_segs_fail(items.drop_last(), i);
        }
    }
}

// ---------------------------------------------------------------------------
// Structural extraction from a whole document
// ---------------------------------------------------------------------------

/// Where a recognizer build keeps its segment array: under
/// `segments`, under `transcription`, under `results.segments`, or as
/// the top-level array itself.  The first key present commits.
pub open spec fn spec_extract_from_value(v: JsonVal) -> Option<Seq<(int, Seq<char>)>> {
    match val_get(v, "segments"@) {
        Some(JsonVal::Arr(items)) => spec_segs_from_array(items),
        Some(_) => None,
        None => match val_get(v, "transcription"@) {
            Some(JsonVal::Arr(items)) => spec_segs_from_array(items),
            Some(_) => None,
            None => match val_get(v, "results"@) {
                Some(res) => match val_get(res, "segments"@) {
                    Some(JsonVal::Arr(items)) => spec_segs_from_array(items),
                    _ => None,
                },
                None => match v {
                    JsonVal::Arr(items) => spec_segs_from_array(items),
                    _ => None,
                },
            },
        },
    }
}

pub fn extract_segments_from_value(v: &JsonValue) -> (r: Option<Vec<RecognizedSegment>>)
    ensures
        match r {
            Some(segs) => spec_extract_from_value(v@) == Some(segs.deep_view()) && segs_bounded(
                segs@,
            ),
            None => spec_extract_from_value(v@) is None,
        },
{
    match value_get(v, "segments") {
        Some(f) => {
            match f {
                JsonValue::Arr(items) => segments_from_array(items),
                _ => None,
            }
        },
        None => {
            match value_get(v, "transcription") {
                Some(f) => {
                    match f {
                        JsonValue::Arr(items) => segments_from_array(items),
                        _ => None,
                    }
                },
                None => {
                    match value_get(v, "results") {
                        Some(res) => {
                            match value_get(res, "segments") {
                                Some(f) => {
                                    match f {
                                        JsonValue::Arr(items) => segments_from_array(items),
                                        _ => None,
                                    }
                                },
                                None => None,
                            }
                        },
                        None => {
                            match v {
                                JsonValue::Arr(items) => segments_from_array(items),
                                _ => None,
                            }
                        },
                    }
                },
            }
        },
    }
}

// ---------------------------------------------------------------------------
// Line-by-line parsing
// ---------------------------------------------------------------------------

/// The segments one line contributes: nothing when it is blank or not
/// JSON; a whole extracted list when the line is a document of a known
/// shape; one segment when the line is a bare segment object.
pub open spec fn spec_line_segs(line: Seq<char>) -> Seq<(int, Seq<char>)> {
    let t = trim_spec(line);
    if t.len() == 0 {
        Seq::empty()
    } else {
        match spec_parse_json(t) {
            None => Seq::empty(),
            Some(v) => match spec_extract_from_value(v) {
                Some(list) => list,
                None => match spec_seg_from_value(v) {
                    Some(sv) => seq![sv],
                    None => Seq::empty(),
                },
            },
        }
    }
}

pub open spec fn spec_lines_collect(lines: Seq<Seq<char>>) -> Seq<(int, Seq<char>)>
    decreases lines.len(),
{
    if lines.len() == 0 {
        Seq::empty()
    } else {
        spec_lines_collect(lines.drop_last()) + spec_line_segs(lines.last())
    }
}

/// Newline-delimited JSON: every line contributes what it can, and
/// the attempt counts only when something came out of it.
pub open spec fn spec_parse_json_lines(s: Seq<char>) -> Option<Seq<(int, Seq<char>)>> {
    let c = spec_lines_collect(split_spec(s, '\n'));
    if c.len() == 0 {
        None
    } else {
        Some(c)
    }
}

pub fn parse_json_lines(contents: &str) -> (r: Option<Vec<RecognizedSegment>>)
    ensures
        match r {
            Some(segs) => spec_parse_json_lines(contents@) == Some(segs.deep_view())
                && segs_bounded(segs@),
            None => spec_parse_json_lines(contents@) is None,
        },
{
    let lines = split_char(contents, '\n');
    let ghost lv = lines.deep_view();
    let mut out: Vec<RecognizedSegment> = Vec::new();
    proof {
        assert(out.deep_view() =~= Seq::<(int, Seq<char>)>::empty());
        assert(lv.take(0) =~= Seq::<Seq<char>>::empty());
    }
    let mut i: usize = 0;
    while i < lines.len()
        invariant
            0 <= i <= lines@.len(),
            lv == lines.deep_view(),
            lv == split_spec(contents@, '\n'),
            lv.len() == lines@.len(),
            forall|k: int| 0 <= k < lines@.len() ==> #[trigger] lv[k] == lines@[k]@,
            out.deep_view() == spec_lines_collect(lv.take(i as int)),
            segs_bounded(out@),
        decreases lines@.len() - i,
    {
        proof {
            assert(lv.take(i + 1 as int).drop_last() =~= lv.take(i as int));
            assert(lv.take(i + 1 as int).last() == lv[i as int]);
        }
        let ghost old_out = out.deep_view();
        let line: &str = lines[i].as_str();
        let trimmed = trim(line);
        if trimmed.unicode_len() > 0 {
            match parse_json(trimmed) {
                Some(v) => {
                    match extract_segments_from_value(&v) {
                        Some(mut list) => {
                            let ghost listv = list.deep_view();
                            out.append(&mut list);
                            proof {
                                assert(out.deep_view() =~= old_out + listv);
                            }
                        },
                        None => {
                            match segment_from_value(&v) {
                                Some(seg) => {
                                    let ghost segv = seg@;
                                    out.push(seg);
                                    proof {
                                        assert(out.deep_view() =~= old_out + seq![segv]);
                                    }
                                },
                                None => {
                                    proof {
                                        assert(out.deep_view() =~= old_out + Seq::<
                                            (int, Seq<char>),
                                        >::empty());
                                    }
                                },
                            }
                        },
                    }
                },
                None => {
                    proof {
                        assert(out.deep_view() =~= old_out + Seq::<(int, Seq<char>)>::empty());
                    }
                },
            }
        } else {
            proof {
                assert(out.deep_view() =~= old_out + Seq::<(int, Seq<char>)>::empty());
            }
        }
        i = i + 1;
    }
    proof {
        assert(lv.take(lines@.len() as int) =~= lv);
    }
    if out.len() == 0 {
        None
    } else {
        Some(out)
    }
}

// ---------------------------------------------------------------------------
// Normalization
// ---------------------------------------------------------------------------

/// Leading byte-order marks, dropped before anything else.
pub open spec fn strip_bom(s: Seq<char>) -> Seq<char>
    decreases s.len(),
{
    if s.len() > 0 && s[0] == '\u{feff}' {
        strip_bom(s.drop_first())
    } else {
        s
    }
}

proof fn lemma_strip_bom_range(s: Seq<char>, i: int)
    requires
        0 <= i <= s.len(),
        forall|k: int| 0 <= k < i ==> s[k] == '\u{feff}',
        i < s.len() ==> s[i] != '\u{feff}',
    ensures
        strip_bom(s) == s.subrange(i, s.len() as int),
    decreases i,
{
    if i == 0 {
        assert(s.subrange(0, s.len() as int) =~= s);
    } else {
        let t = s.drop_first();
        lemma_strip_bom_range(t, i - 1);
        assert(t.subrange(i - 1, t.len() as int) =~= s.subrange(i, s.len() as int));
    }
}

/// The first position holding either an opening brace or bracket.
pub open spec fn first_open(t: Seq<char>) -> int {
    let a = first_idx(t, '{');
    let b = first_idx(t, '[');
    if a == -1 {
        b
    } else if b == -1 {
        a
    } else if a <= b {
        a
    } else {
        b
    }
}

/// The last position holding either a closing brace or bracket.
pub open spec fn last_close(t: Seq<char>) -> int {
    let a = last_idx(t, '}');
    let b = last_idx(t, ']');
    if a >= b {
        a
    } else {
        b
    }
}

/// What remains of the recognizer's raw output after dropping a
/// byte-order mark, surrounding white space, and any banner text
/// outside the outermost `{...}` or `[...]` span.
pub open spec fn spec_normalize_json(s: Seq<char>) -> Seq<char> {
    let t = trim_spec(strip_bom(s));
    if t.len() == 0 {
        Seq::empty()
    } else {
        let a = first_open(t);
        let b = last_close(t);
        if a >= 0 && b >= a {
            t.subrange(a, b + 1)
        } else {
            t
        }
    }
}

/// Trim a byte-order mark and clip to the outermost JSON span,
/// defending against log text the recognizer may interleave with its
/// JSON on some builds.
pub fn normalize_json_contents(contents: &str) -> (r: String)
    ensures
        r@ == spec_normalize_json(contents@),
{
    let n = contents.unicode_len();
    let mut i: usize = 0;
    while i < n && contents.get_char(i) == '\u{feff}'
        invariant
            0 <= i <= n,
            n == contents@.len(),
            forall|k: int| 0 <= k < i ==> contents@[k] == '\u{feff}',
        decreases n - i,
    {
        i = i + 1;
    }
    proof {
        lemma_strip_bom_range(contents@, i as int);
    }
    let stripped = contents.substring_char(i, n);
    let t = trim(stripped);
    let tn = t.unicode_len();
    if tn == 0 {
        let r = String::new();
        proof {
            assert(r@ =~= spec_normalize_json(contents@));
        }
        return r;
    }
    let fa = find_char(t, '{');
    let fb = find_char(t, '[');
    let a: Option<usize> = match (fa, fb) {
        (Some(x), Some(y)) => if x <= y {
            Some(x)
        } else {
            Some(y)
        },
        (Some(x), None) => Some(x),
        (None, Some(y)) => Some(y),
        (None, None) => None,
    };
    let la = crate::strutil::rfind_char(t, '}');
    let lb = crate::strutil::rfind_char(t, ']');
    let b: Option<usize> = match (la, lb) {
        (Some(x), Some(y)) => if x >= y {
            Some(x)
        } else {
            Some(y)
        },
        (Some(x), None) => Some(x),
        (None, Some(y)) => Some(y),
        (None, None) => None,
    };
    proof {
        lemma_first_idx(t@, '{');
        lemma_first_idx(t@, '[');
        lemma_last_idx(t@, '}');
        lemma_last_idx(t@, ']');
    }
    match (a, b) {
        (Some(x), Some(y)) => {
            if y >= x {
                t.substring_char(x, y + 1).to_owned()
            } else {
                t.to_owned()
            }
        },
        _ => t.to_owned(),
    }
}

// ---------------------------------------------------------------------------
// Plain-text fallback
// ---------------------------------------------------------------------------

/// The trimmed, non-empty lines of a plain transcript.
pub open spec fn spec_clean_lines(lines: Seq<Seq<char>>) -> Seq<Seq<char>>
    decreases lines.len(),
{
    if lines.len() == 0 {
        Seq::empty()
    } else {
        spec_clean_lines(lines.drop_last()) + (if trim_spec(lines.last()).len() > 0 {
            seq![trim_spec(lines.last())]
        } else {
            Seq::empty()
        })
    }
}

/// Parts joined with single spaces.
pub open spec fn join_space(parts: Seq<Seq<char>>) -> Seq<char>
    decreases parts.len(),
{
    if parts.len() == 0 {
        Seq::empty()
    } else if parts.len() == 1 {
        parts[0]
    } else {
        join_space(parts.drop_last()) + seq![' '] + parts.last()
    }
}

/// The lossy last resort: the whole companion text collapsed into one
/// segment starting at zero.  Nothing comes of an empty transcript.
pub open spec fn spec_text_fallback(s: Seq<char>) -> Option<(int, Seq<char>)> {
    let j = join_space(spec_clean_lines(split_spec(s, '\n')));
    if j.len() == 0 {
        None
    } else {
        Some((0, j))
    }
}

pub fn text_fallback(contents: &str) -> (r: Option<RecognizedSegment>)
    ensures
        match r {
            Some(seg) => spec_text_fallback(contents@) == Some(seg@) && seg.start_ms == 0,
            None => spec_text_fallback(contents@) is None,
        },
{
    let lines = split_char(contents, '\n');
    let ghost lv = lines.deep_view();
    let mut out = String::new();
    let ghost mut parts: Seq<Seq<char>> = Seq::empty();
    proof {
        assert(lv.take(0) =~= Seq::<Seq<char>>::empty());
        assert(out@ =~= join_space(parts));
        assert(spec_clean_lines(lv.take(0)) =~= parts);
    }
    let mut any = false;
    let mut i: usize = 0;
    while i < lines.len()
        invariant
            0 <= i <= lines@.len(),
            lv == lines.deep_view(),
            lv == split_spec(contents@, '\n'),
            lv.len() == lines@.len(),
            forall|k: int| 0 <= k < lines@.len() ==> #[trigger] lv[k] == lines@[k]@,
            parts == spec_clean_lines(lv.take(i as int)),
            out@ == join_space(parts),
            any <==> parts.len() > 0,
            any ==> out@.len() > 0,
        decreases lines@.len() - i,
    {
        proof {
            assert(lv.take(i + 1 as int).drop_last() =~= lv.take(i as int));
            assert(lv.take(i + 1 as int).last() == lv[i as int]);
        }
        let line: &str = lines[i].as_str();
        let trimmed = trim(line);
        if trimmed.unicode_len() > 0 {
            let ghost old_parts = parts;
            if any {
                push_char(&mut out, ' ');
            }
            out.append(trimmed);
            proof {
                parts = old_parts.push(trimmed@);
                assert(parts.drop_last() =~= old_parts);
                if old_parts.len() > 0 {
                    assert(out@ =~= join_space(parts));
                } else {
                    assert(out@ =~= join_space(parts));
                }
                assert(spec_clean_lines(lv.take(i + 1 as int)) =~= parts);
            }
            any = true;
        } else {
            proof {
                assert(spec_clean_lines(lv.take(i + 1 as int)) =~= parts);
            }
        }
        i = i + 1;
    }
    proof {
        assert(lv.take(lines@.len() as int) =~= lv);
    }
    if any {
        Some(RecognizedSegment { start_ms: 0, text: out })
    } else {
        proof {
            assert(join_space(parts).len() == 0);
        }
        None
    }
}

// ---------------------------------------------------------------------------
// The ranked strategy chain
// ---------------------------------------------------------------------------

/// The strict object shape: `{ "segments": [...] }` with every
/// element in the strict segment shape, and at least one of them.
pub open spec fn spec_strict_object(v: JsonVal) -> Option<Seq<(int, Seq<char>)>> {
    match val_get(v, "segments"@) {
        Some(JsonVal::Arr(items)) => match spec_typed_segs(items) {
            Some(segs) => if segs.len() == 0 {
                None
            } else {
                Some(segs)
            },
            None => None,
        },
        _ => None,
    }
}

/// The strict bare-array shape.
pub open spec fn spec_strict_array(v: JsonVal) -> Option<Seq<(int, Seq<char>)>> {
    match v {
        JsonVal::Arr(items) => match spec_typed_segs(items) {
            Some(segs) => if segs.len() == 0 {
                None
            } else {
                Some(segs)
            },
            None => None,
        },
        _ => None,
    }
}

/// The ranked parsing attempts on normalized recognizer output, first
/// success winning: the strict object shape, the strict array shape,
/// newline-delimited JSON, then the structural inspection of the whole
/// document.  The line-by-line attempt also stands again behind the
/// structural one, but a retry of it cannot succeed where its first
/// run failed, so one position covers both.
pub open spec fn spec_recognizer_segments(t: Seq<char>) -> Option<Seq<(int, Seq<char>)>> {
    let doc = spec_parse_json(t);
    let s1 = match doc {
        Some(v) => spec_strict_object(v),
        None => None,
    };
    if s1 is Some {
        s1
    } else {
        let s2 = match doc {
            Some(v) => spec_strict_array(v),
            None => None,
        };
        if s2 is Some {
            s2
        } else {
            let s3 = spec_parse_json_lines(t);
            if s3 is Some {
                s3
            } else {
                match doc {
                    Some(v) => spec_extract_from_value(v),
                    None => None,
                }
            }
        }
    }
}

/// All segments the JSON output yields, across the ranked strategies,
/// after normalization.
pub fn recognizer_segments_from_json(contents: &str) -> (r: Option<Vec<RecognizedSegment>>)
    ensures
        match r {
            Some(segs) => spec_recognizer_segments(spec_normalize_json(contents@)) == Some(
                segs.deep_view(),
            ) && segs_bounded(segs@),
            None => spec_recognizer_segments(spec_normalize_json(contents@)) is None,
        },
{
    let t = normalize_json_contents(contents);
    let doc = parse_json(t.as_str());
    match &doc {
        Some(v) => {
            match value_get(v, "segments") {
                Some(f) => {
                    match f {
                        JsonValue::Arr(items) => {
                            match typed_segments(items) {
                                Some(segs) => {
                                    if segs.len() > 0 {
                                        return Some(segs);
                                    }
                                },
                                None => {},
                            }
                        },
                        _ => {},
                    }
                },
                None => {},
            }
            match v {
                JsonValue::Arr(items) => {
                    match typed_segments(items) {
                        Some(segs) => {
                            if segs.len() > 0 {
                                return Some(segs);
                            }
                        },
                        None => {},
                    }
                },
                _ => {},
            }
        },
        None => {},
    }
    match parse_json_lines(t.as_str()) {
        Some(segs) => {
            return Some(segs);
        },
        None => {},
    }
    match &doc {
        Some(v) => extract_segments_from_value(v),
        None => None,
    }
}

/// What one track's recognizer run yields: the segments of the JSON
/// output, or — when no JSON attempt succeeds and a companion plain
/// text exists — its single lossy segment, flagged so that the caller
/// can log the degradation.
pub open spec fn spec_recognizer_output(json: Seq<char>, txt: Option<Seq<char>>) -> Option<
    (Seq<(int, Seq<char>)>, bool),
> {
    match spec_recognizer_segments(spec_normalize_json(json)) {
        Some(segs) => Some((segs, false)),
        None => match txt {
            Some(t) => match spec_text_fallback(t) {
                Some(sv) => Some((seq![sv], true)),
                None => None,
            },
            None => None,
        },
    }
}

/// Parse a track's recognizer output, with the plain-text companion
/// as fallback.  The boolean reports that the lossy fallback was
/// taken; `None` means the output was unusable and the job must fail.
pub fn parse_recognizer_output(json: &str, txt: Option<&str>) -> (r: Option<
    (Vec<RecognizedSegment>, bool),
>)
    ensures
        match r {
            Some((segs, fb)) => spec_recognizer_output(
                json@,
                match txt {
                    Some(t) => Some(t@),
                    None => None,
                },
            ) == Some((segs.deep_view(), fb)) && segs_bounded(segs@),
            None => spec_recognizer_output(
                json@,
                match txt {
                    Some(t) => Some(t@),
                    None => None,
                },
            ) is None,
        },
{
    match recognizer_segments_from_json(json) {
        Some(segs) => Some((segs, false)),
        None => {
            match txt {
                Some(t) => {
                    match text_fallback(t) {
                        Some(seg) => {
                            let ghost segv = seg@;
                            let mut one: Vec<RecognizedSegment> = Vec::new();
                            one.push(seg);
                            proof {
                                assert(one.deep_view() =~= seq![segv]);
                            }
                            Some((one, true))
                        },
                        None => None,
                    }
                },
                None => None,
            }
        },
    }
}

// ---------------------------------------------------------------------------
// Agreement of the shapes
// ---------------------------------------------------------------------------

/// The canonical segment object an utterance takes in every format:
/// a numeric `start` and a string `text`.
pub open spec fn utterance_obj(start_num: int, text: Seq<char>) -> JsonVal {
    JsonVal::Obj(seq![("start"@, JsonVal::Num(start_num)), ("text"@, JsonVal::Str(text))])
}

/// An object with one field.
pub open spec fn obj1(key: Seq<char>, v: JsonVal) -> JsonVal {
    JsonVal::Obj(seq![(key, v)])
}

proof fn lemma_obj1_get(key: Seq<char>, v: JsonVal, k2: Seq<char>)
    ensures
        key == k2 ==> obj_get(seq![(key, v)], k2) == Some(v),
        key != k2 ==> obj_get(seq![(key, v)], k2) is None,
{
    assert(seq![(key, v)].drop_last() =~= Seq::<(Seq<char>, JsonVal)>::empty());
    assert(obj_get(Seq::<(Seq<char>, JsonVal)>::empty(), k2) is None);
}

proof fn lemma_utterance_seg(start_num: int, text: Seq<char>)
    requires
        trim_spec(text).len() > 0,
    ensures
        spec_typed_seg(utterance_obj(start_num, text)) == Some((secs_num_to_ms(start_num), text)),
        spec_seg_from_value(utterance_obj(start_num, text)) == Some(
            (secs_num_to_ms(start_num), text),
        ),
{
    reveal_strlit("start");
    reveal_strlit("text");
    assert("start"@.len() == 5 && "text"@.len() == 4);
    let fields = seq![("start"@, JsonVal::Num(start_num)), ("text"@, JsonVal::Str(text))];
    assert(fields.drop_last() =~= seq![("start"@, JsonVal::Num(start_num))]);
    lemma_obj1_get("start"@, JsonVal::Num(start_num), "start"@);
    lemma_obj1_get("start"@, JsonVal::Num(start_num), "text"@);
    assert(obj_get(fields, "start"@) == Some(JsonVal::Num(start_num)));
    assert(obj_get(fields, "text"@) == Some(JsonVal::Str(text)));
}

proof fn lemma_utterance_lists(ps: Seq<(int, Seq<char>)>)
    requires
        forall|i: int| 0 <= i < ps.len() ==> trim_spec((#[trigger] ps[i]).1).len() > 0,
    ensures
        ({
            let objs = Seq::new(ps.len(), |i: int| utterance_obj(ps[i].0, ps[i].1));
            let expected = Seq::new(ps.len(), |i: int| (secs_num_to_ms(ps[i].0), ps[i].1));
            spec_typed_segs(objs) == Some(expected) && spec_collect_segs(objs) == expected
        }),
    decreases ps.len(),
{
    let objs = Seq::new(ps.len(), |i: int| utterance_obj(ps[i].0, ps[i].1));
    let expected = Seq::new(ps.len(), |i: int| (secs_num_to_ms(ps[i].0), ps[i].1));
    if ps.len() == 0 {
        assert(objs =~= Seq::<JsonVal>::empty());
        assert(expected =~= Seq::<(int, Seq<char>)>::empty());
    } else {
        let ps0 = ps.drop_last();
        lemma_utterance_lists(ps0);
        let objs0 = Seq::new(ps0.len(), |i: int| utterance_obj(ps0[i].0, ps0[i].1));
        let expected0 = Seq::new(ps0.len(), |i: int| (secs_num_to_ms(ps0[i].0), ps0[i].1));
        assert(objs.drop_last() =~= objs0);
        assert(objs.last() == utterance_obj(ps.last().0, ps.last().1));
        lemma_utterance_seg(ps.last().0, ps.last().1);
        assert(expected =~= expected0.push((secs_num_to_ms(ps.last().0), ps.last().1)));
        assert(spec_collect_segs(objs) =~= expected);
    }
}

/// Agreement of the recognizer's output shapes: the same utterance
/// data — non-blank texts with numeric starts — yields the same
/// extracted segments whether it arrives as the strict `segments`
/// object, the strict bare array, or any of the structurally
/// inspected shapes (`segments`, `transcription`, `results.segments`,
/// or a bare top-level array).
pub proof fn lemma_shapes_agree(ps: Seq<(int, Seq<char>)>)
    requires
        ps.len() > 0,
        forall|i: int| 0 <= i < ps.len() ==> trim_spec((#[trigger] ps[i]).1).len() > 0,
    ensures
        ({
            let objs = Seq::new(ps.len(), |i: int| utterance_obj(ps[i].0, ps[i].1));
            let expected = Seq::new(ps.len(), |i: int| (secs_num_to_ms(ps[i].0), ps[i].1));
            &&& spec_strict_object(obj1("segments"@, JsonVal::Arr(objs))) == Some(expected)
            &&& spec_strict_array(JsonVal::Arr(objs)) == Some(expected)
            &&& spec_extract_from_value(obj1("segments"@, JsonVal::Arr(objs))) == Some(expected)
            &&& spec_extract_from_value(obj1("transcription"@, JsonVal::Arr(objs))) == Some(
                expected,
            )
            &&& spec_extract_from_value(
                obj1("results"@, obj1("segments"@, JsonVal::Arr(objs))),
            ) == Some(expected)
            &&& spec_extract_from_value(JsonVal::Arr(objs)) == Some(expected)
        }),
{
    let objs = Seq::new(ps.len(), |i: int| utterance_obj(ps[i].0, ps[i].1));
    let expected = Seq::new(ps.len(), |i: int| (secs_num_to_ms(ps[i].0), ps[i].1));
    lemma_utterance_lists(ps);
    assert(expected.len() == ps.len());
    // the distinct key names really are distinct
    reveal_strlit("segments");
    reveal_strlit("transcription");
    reveal_strlit("results");
    assert("segments"@.len() == 8 && "transcription"@.len() == 13 && "results"@.len() == 7);
    let arr = JsonVal::Arr(objs);
    lemma_obj1_get("segments"@, arr, "segments"@);
    lemma_obj1_get("transcription"@, arr, "segments"@);
    lemma_obj1_get("transcription"@, arr, "transcription"@);
    lemma_obj1_get("results"@, obj1("segments"@, arr), "segments"@);
    lemma_obj1_get("results"@, obj1("segments"@, arr), "transcription"@);
    lemma_obj1_get("results"@, obj1("segments"@, arr), "results"@);
}

/// The start offset when no usable numeric `start` field is present.
fn seg_start_fallback(v: &JsonValue) -> (r: i64)
    requires
        v@ matches JsonVal::Obj(fields) && !(obj_get(fields, "start"@) matches Some(
            JsonVal::Num(_),
        )),
    ensures
        v@ matches JsonVal::Obj(fields) ==> r as int == spec_seg_start_ms(fields),
        -SEG_MS_BOUND <= r <= SEG_MS_BOUND,
{
    match value_get(v, "offsets") {
        Some(off) => {
            match value_get(off, "from") {
                Some(f) => {
                    match f {
                        JsonValue::Num(m) => div_tz(*m, 1000000),
                        _ => 0,
                    }
                },
                _ => 0,
            }
        },
        None => {
            match value_get(v, "timestamps") {
                Some(ts) => {
                    match value_get(ts, "from") {
                        Some(f) => {
                            match f {
                                JsonValue::Str(t) => {
                                    match parse_timestamp_millis(t.as_str()) {
                                        Some(ms) => ms,
                                        None => 0,
                                    }
                                },
                                _ => 0,
                            }
                        },
                        _ => 0,
                    }
                },
                None => {
                    match value_get(v, "t0") {
                        Some(f) => {
                            match f {
                                JsonValue::Num(m) => div_tz(*m, 100000),
                                _ => 0,
                            }
                        },
                        None => 0,
                    }
                },
            }
        },
    }
}

} // verus!
