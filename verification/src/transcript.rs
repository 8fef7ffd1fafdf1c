//! Transcript segments on the meeting's absolute timeline: recognized
//! segments re-anchored by their track's start time, merged across
//! tracks into one stably ordered sequence, and rendered to the output
//! text.

use vstd::prelude::*;

verus! {

use vstd::string::StrSliceExecFns;
use vstd::string::StringExecFns;
use crate::order::SortOrd;
use crate::order::deep_views;
use crate::order::sort_by;
use crate::order::lemma_sort_by_views;
use crate::order::le_class;
use crate::order::sort_by_le;
use crate::order::sort_vec;
use crate::order::sorted_by_le;
use crate::order::lemma_sort_by_le_ensures;
use crate::order::lemma_sort_by_le_stable;
use crate::recognizer::RecognizedSegment;
use crate::recognizer::SEG_MS_BOUND;
use crate::recognizer::segs_bounded;
use crate::strutil::dec2_str;
use crate::strutil::push_char;
use crate::strutil::trim;
use crate::strutil::trim_spec;
use crate::strutil::u64_to_string_pad2;

/// One utterance of the final transcript: an absolute start offset in
/// milliseconds from midnight of the recording day, the speaker, and
/// the trimmed text.
pub struct TranscriptSegment {
    pub start_ms: i64,
    pub speaker: String,
    pub text: String,
}

impl View for TranscriptSegment {
    type V = (int, Seq<char>, Seq<char>);

    open spec fn view(&self) -> (int, Seq<char>, Seq<char>) {
        (self.start_ms as int, self.speaker@, self.text@)
    }
}

impl DeepView for TranscriptSegment {
    type V = (int, Seq<char>, Seq<char>);

    open spec fn deep_view(&self) -> (int, Seq<char>, Seq<char>) {
        self.view()
    }
}

/// Transcript segments order by absolute start time alone; speaker
/// and text never break ties, so equal starts keep their append order
/// through the stable sort.
impl SortOrd for TranscriptSegment {
    open spec fn le(self, other: Self) -> bool {
        self.start_ms <= other.start_ms
    }

    proof fn lemma_le_total(a: Self, b: Self) {
    }

    proof fn lemma_le_trans(a: Self, b: Self, c: Self) {
    }

    fn le_exec(&self, other: &Self) -> (r: bool) {
        self.start_ms <= other.start_ms
    }
}

/// Absolute starts stay below this bound: a track's wall-clock anchor
/// plus a recognized offset, each far smaller.
pub const TS_MS_BOUND: i64 = 200_000_000_000_000_000;

pub open spec fn tsegs_bounded(s: Seq<TranscriptSegment>) -> bool {
    forall|k: int| 0 <= k < s.len() ==> -TS_MS_BOUND <= (#[trigger] s[k]).start_ms <= TS_MS_BOUND
}

// ---------------------------------------------------------------------------
// The view-level image of the stable sort
// ---------------------------------------------------------------------------

pub open spec fn tv_le(a: (int, Seq<char>, Seq<char>), b: (int, Seq<char>, Seq<char>)) -> bool {
    a.0 <= b.0
}

pub open spec fn tv_leq() -> spec_fn((int, Seq<char>, Seq<char>), (int, Seq<char>, Seq<char>)) -> bool {
    |a: (int, Seq<char>, Seq<char>), b: (int, Seq<char>, Seq<char>)| tv_le(a, b)
}

/// The stable sort of transcript segments, seen through their views.
pub open spec fn tv_sort(s: Seq<(int, Seq<char>, Seq<char>)>) -> Seq<(int, Seq<char>, Seq<char>)> {
    sort_by(s, tv_leq())
}

/// Sorting commutes with taking views: the view of the stably sorted
/// segments is the stable sort of the views.
pub proof fn lemma_views_sort(s: Seq<TranscriptSegment>)
    ensures
        deep_views(sort_by_le(s)) == tv_sort(deep_views(s)),
{
    assert(forall|a: TranscriptSegment, b: TranscriptSegment| #[trigger]
        a.le(b) <==> (tv_leq())(a.deep_view(), b.deep_view()));
    lemma_sort_by_views(s, tv_leq());
}

// ---------------------------------------------------------------------------
// Re-anchoring
// ---------------------------------------------------------------------------

/// A track's recognized segments on the absolute timeline: segments
/// whose trimmed text is empty are dropped; the rest start at the
/// track's base plus their own offset, carry the speaker, and keep
/// their text trimmed.
pub open spec fn spec_anchor_views(
    segs: Seq<RecognizedSegment>,
    speaker: Seq<char>,
    base_ms: int,
) -> Seq<(int, Seq<char>, Seq<char>)>
    decreases segs.len(),
{
    if segs.len() == 0 {
        Seq::empty()
    } else {
        spec_anchor_views(segs.drop_last(), speaker, base_ms) + (if trim_spec(
            segs.last().text@,
        ).len() == 0 {
            Seq::empty()
        } else {
            seq![(base_ms + segs.last().start_ms, speaker, trim_spec(segs.last().text@))]
        })
    }
}

/// Re-anchor one track's segments and sort them by absolute start,
/// stably.
pub fn anchor_track_segments(segs: &Vec<RecognizedSegment>, speaker: &str, base_ms: i64) -> (r:
    Vec<TranscriptSegment>)
    requires
        segs_bounded(segs@),
        0 <= base_ms <= 86_400_000,
    ensures
        r.deep_view() == tv_sort(spec_anchor_views(segs@, speaker@, base_ms as int)),
        tsegs_bounded(r@),
        sorted_by_le(r@),
{
    let mut out: Vec<TranscriptSegment> = Vec::new();
    proof {
        assert(segs@.take(0) =~= Seq::<RecognizedSegment>::empty());
        assert(deep_views(out@) =~= spec_anchor_views(segs@.take(0), speaker@, base_ms as int));
    }
    let mut i: usize = 0;
    while i < segs.len()
        invariant
            0 <= i <= segs@.len(),
            segs_bounded(segs@),
            -86_400_000 <= base_ms <= 86_400_000,
            deep_views(out@) == spec_anchor_views(segs@.take(i as int), speaker@, base_ms as int),
            tsegs_bounded(out@),
        decreases segs@.len() - i,
    {
        proof {
            assert(segs@.take(i + 1 as int).drop_last() =~= segs@.take(i as int));
            assert(segs@.take(i + 1 as int).last() == segs@[i as int]);
            assert(segs@[i as int].start_ms >= -SEG_MS_BOUND && segs@[i as int].start_ms
                <= SEG_MS_BOUND);
        }
        let ghost old_views = deep_views(out@);
        let seg = &segs[i];
        let trimmed = trim(seg.text.as_str());
        if trimmed.unicode_len() > 0 {
            let t = TranscriptSegment {
                start_ms: base_ms + seg.start_ms,
                speaker: speaker.to_owned(),
                text: trimmed.to_owned(),
            };
            let ghost tv = t@;
            out.push(t);
            proof {
                assert(deep_views(out@) =~= old_views + seq![tv]);
            }
        } else {
            proof {
                assert(deep_views(out@) =~= old_views + Seq::<(int, Seq<char>, Seq<char>)>::empty());
            }
        }
        i = i + 1;
    }
    proof {
        assert(segs@.take(segs@.len() as int) =~= segs@);
    }
    let ghost unsorted = out@;
    sort_vec(&mut out);
    proof {
        lemma_views_sort(unsorted);
        lemma_sort_by_le_ensures(unsorted);
        assert(out.deep_view() =~= deep_views(out@));
        assert forall|k: int| 0 <= k < out@.len() implies -TS_MS_BOUND <= (
        #[trigger] out@[k]).start_ms <= TS_MS_BOUND by {
            broadcast use vstd::seq_lib::group_to_multiset_ensures;

            assert(out@.to_multiset().contains(out@[k]));
            assert(unsorted.to_multiset().contains(out@[k]));
            assert(unsorted.contains(out@[k]));
        }
    }
    out
}

/// Append one track's anchored, sorted segments to the accumulated
/// cross-track sequence.
pub fn merge_track_segments(
    all: &mut Vec<TranscriptSegment>,
    segs: &Vec<RecognizedSegment>,
    speaker: &str,
    base_ms: i64,
)
    requires
        segs_bounded(segs@),
        0 <= base_ms <= 86_400_000,
        tsegs_bounded(old(all)@),
    ensures
        final(all).deep_view() == old(all).deep_view() + tv_sort(
            spec_anchor_views(segs@, speaker@, base_ms as int),
        ),
        tsegs_bounded(final(all)@),
{
    let ghost old_all = all@;
    let mut tracked_segs = anchor_track_segments(segs, speaker, base_ms);
    all.append(&mut tracked_segs);
    proof {
        assert(all.deep_view() =~= deep_views(all@));
        assert(old(all).deep_view() =~= deep_views(old_all));
        assert(deep_views(all@) =~= deep_views(old_all) + deep_views(all@.skip(old_all.len() as int)));
    }
}

/// Sort the merged sequence by absolute start time, stably: the final
/// ordering pass over all tracks' segments.
pub fn sort_segments(v: &mut Vec<TranscriptSegment>)
    ensures
        final(v)@ == sort_by_le(old(v)@),
        final(v).deep_view() == tv_sort(old(v).deep_view()),
        sorted_by_le(final(v)@),
        final(v)@.to_multiset() == old(v)@.to_multiset(),
{
    let ghost orig = v@;
    sort_vec(v);
    proof {
        lemma_views_sort(orig);
        lemma_sort_by_le_ensures(orig);
        assert(v.deep_view() =~= deep_views(v@));
        assert(old(v).deep_view() =~= deep_views(orig));
    }
}

// ---------------------------------------------------------------------------
// Laws of the merge
// ---------------------------------------------------------------------------

/// Merge determinism: the merged sequence is exactly a stable sort of
/// the appended per-track segments — non-decreasing in absolute start
/// time and a permutation of its input.
pub proof fn lemma_merge_sorted(s: Seq<TranscriptSegment>)
    ensures
        sorted_by_le(sort_by_le(s)),
        forall|i: int, j: int|
            0 <= i < j < sort_by_le(s).len() ==> (#[trigger] sort_by_le(s)[i]).start_ms <= (
            #[trigger] sort_by_le(s)[j]).start_ms,
        sort_by_le(s).to_multiset() == s.to_multiset(),
        sort_by_le(s).len() == s.len(),
{
    lemma_sort_by_le_ensures(s);
    assert forall|i: int, j: int| 0 <= i < j < sort_by_le(s).len() implies (
    #[trigger] sort_by_le(s)[i]).start_ms <= (#[trigger] sort_by_le(s)[j]).start_ms by {
        assert(sort_by_le(s)[i].le(sort_by_le(s)[j]));
    }
}

/// Stability of the merge: segments with any one fixed start time
/// appear in the merged sequence in exactly the order they were
/// appended — track order, then in-track order.
pub proof fn lemma_merge_stable(s: Seq<TranscriptSegment>, start: int)
    ensures
        sort_by_le(s).filter(|e: TranscriptSegment| e.start_ms == start) == s.filter(
            |e: TranscriptSegment| e.start_ms == start,
        ),
{
    let q = |e: TranscriptSegment| e.start_ms == start;
    assert(le_class(q));
    lemma_sort_by_le_stable(s, q);
}

// ---------------------------------------------------------------------------
// Rendering
// ---------------------------------------------------------------------------

/// The whole seconds an absolute start rounds to: nearest second,
/// clamped to zero from below.
pub open spec fn spec_round_secs(ms: int) -> int {
    if ms < 0 {
        0
    } else {
        (ms + 500) / 1000
    }
}

/// `HH:MM:SS` with each part zero-padded to two places.
pub open spec fn spec_format_seconds(ms: int) -> Seq<char> {
    let total = spec_round_secs(ms);
    dec2_str((total / 3600) as nat) + seq![':'] + dec2_str((total % 3600 / 60) as nat) + seq![':']
        + dec2_str((total % 60) as nat)
}

pub fn format_seconds(start_ms: i64) -> (r: String)
    requires
        start_ms <= i64::MAX - 1000,
    ensures
        r@ == spec_format_seconds(start_ms as int),
{
    let total: i64 = if start_ms < 0 {
        0
    } else {
        (start_ms + 500) / 1000
    };
    let hours = u64_to_string_pad2((total / 3600) as u64);
    let minutes = u64_to_string_pad2((total % 3600 / 60) as u64);
    let seconds = u64_to_string_pad2((total % 60) as u64);
    let mut out = hours;
    push_char(&mut out, ':');
    let mut out = out.concat(minutes.as_str());
    push_char(&mut out, ':');
    let out = out.concat(seconds.as_str());
    proof {
        assert(out@ =~= spec_format_seconds(start_ms as int));
    }
    out
}

/// One rendered line.  The speaker joins the text with a full-width
/// colon when speaker labels are on; the rounded absolute start
/// prefixes the line when timestamps are on.
pub open spec fn spec_render_line(seg: TranscriptSegment, with_ts: bool, with_sp: bool) -> Seq<
    char,
> {
    let body = if with_sp {
        seg.speaker@ + seq!['：'] + seg.text@
    } else {
        seg.text@
    };
    let head = if with_ts {
        spec_format_seconds(seg.start_ms as int) + seq![' ']
    } else {
        Seq::<char>::empty()
    };
    head + body + seq!['\n']
}

/// The rendered transcript: one line per segment, in order.
pub open spec fn spec_format_segments(
    segs: Seq<TranscriptSegment>,
    with_ts: bool,
    with_sp: bool,
) -> Seq<char>
    decreases segs.len(),
{
    if segs.len() == 0 {
        Seq::empty()
    } else {
        spec_format_segments(segs.drop_last(), with_ts, with_sp) + spec_render_line(
            segs.last(),
            with_ts,
            with_sp,
        )
    }
}

/// Render the merged segments.  The output is a function of the
/// segments and the two flags alone, so rendering the same sequence
/// twice with the same flags yields byte-identical text.
pub fn format_segments(
    segments: &Vec<TranscriptSegment>,
    include_timestamps: bool,
    include_speaker: bool,
) -> (out: String)
    requires
        tsegs_bounded(segments@),
    ensures
        out@ == spec_format_segments(segments@, include_timestamps, include_speaker),
{
    let mut out = String::new();
    proof {
        assert(segments@.take(0) =~= Seq::<TranscriptSegment>::empty());
        assert(out@ =~= spec_format_segments(
            segments@.take(0),
            include_timestamps,
            include_speaker,
        ));
    }
    let mut i: usize = 0;
    while i < segments.len()
        invariant
            0 <= i <= segments@.len(),
            tsegs_bounded(segments@),
            out@ == spec_format_segments(segments@.take(i as int), include_timestamps,
            include_speaker),
        decreases segments@.len() - i,
    {
        proof {
            assert(segments@.take(i + 1 as int).drop_last() =~= segments@.take(i as int));
            assert(segments@.take(i + 1 as int).last() == segments@[i as int]);
            assert(segments@[i as int].start_ms <= TS_MS_BOUND);
        }
        let seg = &segments[i];
        let ghost before = out@;
        if include_timestamps {
            let ts = format_seconds(seg.start_ms);
            let mut line = ts;
            push_char(&mut line, ' ');
            out = out.concat(line.as_str());
        }
        if include_speaker {
            out = out.concat(seg.speaker.as_str());
            push_char(&mut out, '：');
        }
        out = out.concat(seg.text.as_str());
        push_char(&mut out, '\n');
        proof {
            assert(out@ =~= before + spec_render_line(
                segments@[i as int],
                include_timestamps,
                include_speaker,
            ));
        }
        i = i + 1;
    }
    proof {
        assert(segments@.take(segments@.len() as int) =~= segments@);
    }
    out
}

/// The four flag combinations yield exactly the documented line
/// shapes.
pub proof fn lemma_render_line_shapes(seg: TranscriptSegment)
    ensures
        spec_render_line(seg, true, true) == spec_format_seconds(seg.start_ms as int) + seq![' ']
            + seg.speaker@ + seq!['：'] + seg.text@ + seq!['\n'],
        spec_render_line(seg, true, false) == spec_format_seconds(seg.start_ms as int) + seq![' ']
            + seg.text@ + seq!['\n'],
        spec_render_line(seg, false, true) == seg.speaker@ + seq!['：'] + seg.text@ + seq!['\n'],
        spec_render_line(seg, false, false) == seg.text@ + seq!['\n'],
{
    assert(spec_render_line(seg, true, true) =~= spec_format_seconds(seg.start_ms as int) + seq![
        ' ',
    ] + seg.speaker@ + seq!['：'] + seg.text@ + seq!['\n']);
    assert(spec_render_line(seg, true, false) =~= spec_format_seconds(seg.start_ms as int) + seq![
        ' ',
    ] + seg.text@ + seq!['\n']);
    assert(spec_render_line(seg, false, true) =~= seg.speaker@ + seq!['：'] + seg.text@ + seq![
        '\n',
    ]);
    assert(spec_render_line(seg, false, false) =~= seg.text@ + seq!['\n']);
}

} // verus!
