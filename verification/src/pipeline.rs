//! The transcription pipeline's decisions.  The shell performs the
//! outside work — listing and downloading objects, running the audio
//! converter and the recognizer — and feeds every result back into
//! the functions here: track discovery and ordering, the output file
//! path, per-track merging, and the final rendering.

use vstd::prelude::*;

verus! {

use vstd::string::StrSliceExecFns;
use vstd::string::StringExecFns;
use crate::keycodec::parse_key;
use crate::keycodec::spec_parse_key;
use crate::order::SortOrd;
use crate::order::sort_by;
use crate::order::sort_by_le;
use crate::order::sort_vec;
use crate::order::lemma_sort_by_le_ensures;
use crate::order::lemma_sort_by_views;
use crate::paths::join_path;
use crate::recognizer::RecognizedSegment;
use crate::recognizer::segs_bounded;
use crate::strutil::dec_str;
use crate::strutil::last_idx;
use crate::strutil::lemma_last_idx;
use crate::strutil::push_char;
use crate::strutil::rfind_char;
use crate::strutil::u64_to_string;
use crate::timeutil::format_time_japanese;
use crate::timeutil::parse_time_any;
use crate::timeutil::spec_format_japanese;
use crate::timeutil::spec_parse_time;
use crate::timeutil::spec_seconds_since_midnight;
use crate::timeutil::time_str_le;
use crate::timeutil::lemma_time_str_le_total;
use crate::timeutil::lemma_time_str_le_trans;
use crate::timeutil::compare_time_string;
use crate::transcript::TranscriptSegment;
use crate::transcript::merge_track_segments;
use crate::transcript::spec_anchor_views;
use crate::transcript::spec_format_segments;
use crate::transcript::format_segments;
use crate::transcript::tsegs_bounded;
use crate::transcript::tv_sort;
use core::cmp::Ordering;

/// One audio object of a meeting: its store key, the speaker it
/// belongs to, and the track's start time.
pub struct TrackEntry {
    pub key: String,
    pub speaker: String,
    pub track_time: String,
}

impl View for TrackEntry {
    type V = (Seq<char>, Seq<char>, Seq<char>);

    open spec fn view(&self) -> (Seq<char>, Seq<char>, Seq<char>) {
        (self.key@, self.speaker@, self.track_time@)
    }
}

impl DeepView for TrackEntry {
    type V = (Seq<char>, Seq<char>, Seq<char>);

    open spec fn deep_view(&self) -> (Seq<char>, Seq<char>, Seq<char>) {
        self.view()
    }
}

/// Tracks order by their start time under the time-string order;
/// unparseable times sort last, and ties keep listing order.
impl SortOrd for TrackEntry {
    open spec fn le(self, other: Self) -> bool {
        time_str_le(self.track_time@, other.track_time@)
    }

    proof fn lemma_le_total(a: Self, b: Self) {
        lemma_time_str_le_total(a.track_time@, b.track_time@);
    }

    proof fn lemma_le_trans(a: Self, b: Self, c: Self) {
        lemma_time_str_le_trans(a.track_time@, b.track_time@, c.track_time@);
    }

    fn le_exec(&self, other: &Self) -> (r: bool) {
        match compare_time_string(self.track_time.as_str(), other.track_time.as_str()) {
            Ordering::Greater => false,
            _ => true,
        }
    }
}

pub open spec fn trk_le(
    a: (Seq<char>, Seq<char>, Seq<char>),
    b: (Seq<char>, Seq<char>, Seq<char>),
) -> bool {
    time_str_le(a.2, b.2)
}

pub open spec fn trk_leq() -> spec_fn(
    (Seq<char>, Seq<char>, Seq<char>),
    (Seq<char>, Seq<char>, Seq<char>),
) -> bool {
    |a: (Seq<char>, Seq<char>, Seq<char>), b: (Seq<char>, Seq<char>, Seq<char>)| trk_le(a, b)
}

/// The track entries a key listing yields, in listing order:
/// `(key, speaker, trackTime)` for each key of the right shape,
/// everything else silently skipped.
pub open spec fn spec_tracks(keys: Seq<Seq<char>>) -> Seq<(Seq<char>, Seq<char>, Seq<char>)>
    decreases keys.len(),
{
    if keys.len() == 0 {
        Seq::empty()
    } else {
        spec_tracks(keys.drop_last()) + (match spec_parse_key(keys.last()) {
            Some(f) => seq![(keys.last(), f.3, f.4)],
            None => Seq::empty(),
        })
    }
}

/// Parse a meeting's key listing into its track entries, sorted by
/// track start time, stably.
pub fn tracks_from_keys(keys: &Vec<String>) -> (r: Vec<TrackEntry>)
    ensures
        r.deep_view() == sort_by(spec_tracks(keys.deep_view()), trk_leq()),
{
    let ghost kv = keys.deep_view();
    let mut out: Vec<TrackEntry> = Vec::new();
    proof {
        assert(kv.take(0) =~= Seq::<Seq<char>>::empty());
        assert(out.deep_view() =~= spec_tracks(kv.take(0)));
    }
    let mut i: usize = 0;
    while i < keys.len()
        invariant
            0 <= i <= keys@.len(),
            kv == keys.deep_view(),
            kv.len() == keys@.len(),
            forall|k: int| 0 <= k < keys@.len() ==> #[trigger] kv[k] == keys@[k]@,
            out.deep_view() == spec_tracks(kv.take(i as int)),
        decreases keys@.len() - i,
    {
        proof {
            assert(kv.take(i + 1 as int).drop_last() =~= kv.take(i as int));
            assert(kv.take(i + 1 as int).last() == kv[i as int]);
        }
        let ghost old_out = out.deep_view();
        match parse_key(keys[i].as_str()) {
            Some((_date, _room, _mtime, speaker, track_time)) => {
                let e = TrackEntry { key: keys[i].clone(), speaker, track_time };
                let ghost ev = e@;
                out.push(e);
                proof {
                    assert(out.deep_view() =~= old_out + seq![ev]);
                }
            },
            None => {
                proof {
                    assert(out.deep_view() =~= old_out + Seq::<
                        (Seq<char>, Seq<char>, Seq<char>),
                    >::empty());
                }
            },
        }
        i = i + 1;
    }
    proof {
        assert(kv.take(kv.len() as int) =~= kv);
    }
    let ghost unsorted = out@;
    sort_vec(&mut out);
    proof {
        assert(forall|a: TrackEntry, b: TrackEntry| #[trigger]
            a.le(b) <==> (trk_leq())(a.deep_view(), b.deep_view()));
        lemma_sort_by_views(unsorted, trk_leq());
    }
    out
}

// ---------------------------------------------------------------------------
// The output file
// ---------------------------------------------------------------------------

/// Each occurrence of `from` replaced by `to`.
pub open spec fn replace_char(s: Seq<char>, from: char, to: char) -> Seq<char> {
    Seq::new(
        s.len(),
        |i: int|
            if s[i] == from {
                to
            } else {
                s[i]
            },
    )
}

/// The text after the last slash, or all of `s`.
pub open spec fn after_last_slash(s: Seq<char>) -> Seq<char> {
    let i = last_idx(s, '/');
    if i >= 0 {
        s.subrange(i + 1, s.len() as int)
    } else {
        s
    }
}

/// The file name with its extension replaced by the transcript
/// extension; a name without one just gains it.
pub open spec fn spec_with_txt_ext(name: Seq<char>) -> Seq<char> {
    let d = last_idx(name, '.');
    if d > 0 {
        name.subrange(0, d) + ".txt"@
    } else {
        name + ".txt"@
    }
}

/// The transcript's file name for a meeting: the meeting time — the
/// id's last path segment, backslashes flattened — reformatted in the
/// localized notation when it parses, kept raw otherwise.
pub open spec fn spec_output_file_name(meeting_id: Seq<char>) -> Seq<char> {
    let time_only = replace_char(after_last_slash(meeting_id), '\\', '_');
    if spec_parse_time(time_only) is Some {
        spec_format_japanese(spec_parse_time(time_only)->0)
    } else {
        time_only
    }
}

/// Where a meeting's transcript is written.
pub fn output_file_path(output_root_dir: &str, meeting_id: &str) -> (r: String)
    ensures
        r@ == output_root_dir@ + seq!['/'] + spec_with_txt_ext(spec_output_file_name(meeting_id@)),
{
    let n = meeting_id.unicode_len();
    proof {
        lemma_last_idx(meeting_id@, '/');
    }
    let tail: &str = match rfind_char(meeting_id, '/') {
        Some(i) => meeting_id.substring_char(i + 1, n),
        None => meeting_id,
    };
    let tn = tail.unicode_len();
    let mut time_only = String::new();
    let mut i: usize = 0;
    while i < tn
        invariant
            0 <= i <= tn,
            tn == tail@.len(),
            time_only@ == replace_char(tail@, '\\', '_').take(i as int),
        decreases tn - i,
    {
        let c = tail.get_char(i);
        if c == '\\' {
            push_char(&mut time_only, '_');
        } else {
            push_char(&mut time_only, c);
        }
        proof {
            assert(time_only@ =~= replace_char(tail@, '\\', '_').take(i + 1 as int));
        }
        i = i + 1;
    }
    proof {
        assert(replace_char(tail@, '\\', '_').take(tn as int) =~= replace_char(tail@, '\\', '_'));
    }
    let file: String = match format_time_japanese(time_only.as_str()) {
        Some(f) => f,
        None => time_only,
    };
    let fname: String = {
        let fn_len = file.as_str().unicode_len();
        proof {
            lemma_last_idx(file@, '.');
        }
        match rfind_char(file.as_str(), '.') {
            Some(d) if d > 0 => {
                let stem = file.as_str().substring_char(0, d);
                let r = stem.to_owned().concat(".txt");
                proof {
                    assert(r@ =~= spec_with_txt_ext(file@));
                }
                r
            },
            _ => {
                let r = file.as_str().to_owned().concat(".txt");
                proof {
                    assert(r@ =~= spec_with_txt_ext(file@));
                }
                r
            },
        }
    };
    join_path(output_root_dir, fname.as_str())
}

// ---------------------------------------------------------------------------
// Per-track values
// ---------------------------------------------------------------------------

/// A track's anchor on the absolute timeline, in milliseconds: its
/// start time's seconds since midnight, or zero when the time string
/// parses in no accepted notation.
pub open spec fn spec_track_base_ms(track_time: Seq<char>) -> int {
    match spec_parse_time(track_time) {
        Some(w) => spec_seconds_since_midnight(w) * 1000,
        None => 0,
    }
}

pub fn track_base_ms(track_time: &str) -> (r: i64)
    ensures
        r == spec_track_base_ms(track_time@),
        0 <= r <= 86_400_000,
{
    match parse_time_any(track_time) {
        Some(w) => (w.num_seconds_from_midnight() as i64) * 1000,
        None => 0,
    }
}

/// The progress label of one track: `Track {index+1}/{total}: {action}`.
pub fn track_progress_line(index: usize, total: usize, action: &str) -> (r: String)
    requires
        index < total,
    ensures
        r@ == "Track "@ + dec_str((index + 1) as nat) + seq!['/'] + dec_str(total as nat) + seq![
            ':',
            ' ',
        ] + action@,
{
    let mut r = "Track ".to_owned();
    let num = u64_to_string((index as u64) + 1);
    let mut r = r.concat(num.as_str());
    push_char(&mut r, '/');
    let tot = u64_to_string(total as u64);
    let mut r = r.concat(tot.as_str());
    push_char(&mut r, ':');
    push_char(&mut r, ' ');
    let r = r.concat(action);
    proof {
        assert(r@ =~= "Track "@ + dec_str((index + 1) as nat) + seq!['/'] + dec_str(total as nat)
            + seq![':', ' '] + action@);
    }
    r
}

/// The job-scoped name a track's downloaded audio is stored under.
pub fn temp_track_name(index: usize) -> (r: String)
    ensures
        r@ == "track_"@ + dec_str(index as nat) + ".ogg"@,
{
    let mut r = "track_".to_owned();
    let num = u64_to_string(index as u64);
    let r = r.concat(num.as_str());
    let r = r.concat(".ogg");
    proof {
        assert(r@ =~= "track_"@ + dec_str(index as nat) + ".ogg"@);
    }
    r
}

/// ... its converted waveform.
pub fn temp_wav_name(index: usize) -> (r: String)
    ensures
        r@ == "track_"@ + dec_str(index as nat) + ".wav"@,
{
    let mut r = "track_".to_owned();
    let num = u64_to_string(index as u64);
    let r = r.concat(num.as_str());
    let r = r.concat(".wav");
    proof {
        assert(r@ =~= "track_"@ + dec_str(index as nat) + ".wav"@);
    }
    r
}

/// ... and the base name the recognizer writes its outputs under.
pub fn temp_output_base(index: usize) -> (r: String)
    ensures
        r@ == "out_"@ + dec_str(index as nat),
{
    let r = "out_".to_owned();
    let num = u64_to_string(index as u64);
    let r = r.concat(num.as_str());
    proof {
        assert(r@ =~= "out_"@ + dec_str(index as nat));
    }
    r
}

// ---------------------------------------------------------------------------
// The plan of one transcription job
// ---------------------------------------------------------------------------

/// The verified state of one running transcription: the sorted tracks,
/// the output path, the formatting flags, and the segments merged so
/// far.  The shell walks the tracks in order, obtains each track's
/// recognizer output, and hands it back here.
pub struct TranscriptionPlan {
    pub tracks: Vec<TrackEntry>,
    pub output_path: String,
    pub include_timestamps: bool,
    pub include_speaker: bool,
    pub segments: Vec<TranscriptSegment>,
    pub completed: usize,
}

impl TranscriptionPlan {
    pub open spec fn wf(&self) -> bool {
        &&& tsegs_bounded(self.segments@)
        &&& self.completed <= self.tracks@.len()
    }
}

/// Lay out a transcription job from the meeting's key listing: its
/// tracks sorted by start time and its output path.  Fails exactly
/// when no listed key parses as a track.
pub fn plan_transcription(
    keys: &Vec<String>,
    output_root_dir: &str,
    meeting_id: &str,
    include_timestamps: bool,
    include_speaker: bool,
) -> (r: Result<TranscriptionPlan, String>)
    ensures
        r is Ok <==> spec_tracks(keys.deep_view()).len() > 0,
        r matches Ok(p) ==> {
            &&& p.tracks.deep_view() == sort_by(spec_tracks(keys.deep_view()), trk_leq())
            &&& p.output_path@ == output_root_dir@ + seq!['/'] + spec_with_txt_ext(
                spec_output_file_name(meeting_id@),
            )
            &&& p.include_timestamps == include_timestamps
            &&& p.include_speaker == include_speaker
            &&& p.segments@ == Seq::<TranscriptSegment>::empty()
            &&& p.completed == 0
            &&& p.wf()
        },
        r matches Err(m) ==> m@ == "No tracks found for meeting: "@ + meeting_id@,
{
    let tracks = tracks_from_keys(keys);
    proof {
        lemma_sort_by_len(spec_tracks(keys.deep_view()), trk_leq());
    }
    if tracks.len() == 0 {
        let m = "No tracks found for meeting: ".to_owned();
        let m = m.concat(meeting_id);
        proof {
            assert(m@ =~= "No tracks found for meeting: "@ + meeting_id@);
        }
        return Err(m);
    }
    let output_path = output_file_path(output_root_dir, meeting_id);
    let segments: Vec<TranscriptSegment> = Vec::new();
    proof {
        assert(segments@ =~= Seq::<TranscriptSegment>::empty());
    }
    Ok(
        TranscriptionPlan {
            tracks,
            output_path,
            include_timestamps,
            include_speaker,
            segments,
            completed: 0,
        },
    )
}

proof fn lemma_sort_by_len<T>(s: Seq<T>, leq: spec_fn(T, T) -> bool)
    ensures
        sort_by(s, leq).len() == s.len(),
    decreases s.len(),
{
    if s.len() > 0 {
        lemma_sort_by_len(s.drop_last(), leq);
        lemma_insert_by_len(sort_by(s.drop_last(), leq), s.last(), leq);
    }
}

proof fn lemma_insert_by_len<T>(s: Seq<T>, x: T, leq: spec_fn(T, T) -> bool)
    ensures
        crate::order::insert_by(s, x, leq).len() == s.len() + 1,
    decreases s.len(),
{
    if s.len() > 0 && !leq(s.last(), x) {
        lemma_insert_by_len(s.drop_last(), x, leq);
    }
}

impl TranscriptionPlan {
    /// Merge the recognizer's output for track `index` — the next one
    /// in order — into the accumulated transcript.
    pub fn merge_track(&mut self, index: usize, segs: &Vec<RecognizedSegment>)
        requires
            old(self).wf(),
            index < old(self).tracks@.len(),
            old(self).completed == index,
            segs_bounded(segs@),
        ensures
            final(self).segments.deep_view() == old(self).segments.deep_view() + tv_sort(
                spec_anchor_views(
                    segs@,
                    old(self).tracks@[index as int].speaker@,
                    spec_track_base_ms(old(self).tracks@[index as int].track_time@),
                ),
            ),
            final(self).completed == index + 1,
            final(self).tracks == old(self).tracks,
            final(self).output_path == old(self).output_path,
            final(self).include_timestamps == old(self).include_timestamps,
            final(self).include_speaker == old(self).include_speaker,
            final(self).wf(),
    {
        let n = self.tracks.len();
        let track = &self.tracks[index];
        let base = track_base_ms(track.track_time.as_str());
        let speaker: String = track.speaker.clone();
        merge_track_segments(&mut self.segments, segs, speaker.as_str(), base);
        self.completed = index + 1;
    }

    /// Merge all tracks' segments into the final order and render the
    /// transcript text.
    pub fn finish(self) -> (out: String)
        requires
            self.wf(),
        ensures
            out@ == spec_format_segments(
                sort_by_le(self.segments@),
                self.include_timestamps,
                self.include_speaker,
            ),
    {
        let TranscriptionPlan { mut segments, include_timestamps, include_speaker, .. } = self;
        let ghost before = segments@;
        crate::transcript::sort_segments(&mut segments);
        proof {
            lemma_sort_by_le_ensures(before);
            broadcast use vstd::seq_lib::group_to_multiset_ensures;

            assert forall|k: int|
                0 <= k < segments@.len() implies -crate::transcript::TS_MS_BOUND <= (
            #[trigger] segments@[k]).start_ms <= crate::transcript::TS_MS_BOUND by {
                assert(segments@.to_multiset().contains(segments@[k]));
                assert(before.to_multiset().contains(segments@[k]));
                assert(before.contains(segments@[k]));
            }
        }
        format_segments(&segments, include_timestamps, include_speaker)
    }
}

} // verus!
