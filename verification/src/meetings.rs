//! Discovery of recording dates and meetings from the object store's
//! key listing: date prefixes cleaned, sorted and deduplicated, and
//! per-meeting summaries aggregated from the keys under one date.

use vstd::prelude::*;

verus! {

use core::cmp::Ordering;
use vstd::string::StrSliceExecFns;
use crate::keycodec::extract_room_label;
use crate::keycodec::parse_key;
use crate::keycodec::spec_extract_room_label;
use crate::keycodec::spec_parse_key;
use crate::order::SortOrd;
use crate::order::sort_by;
use crate::order::sort_by_le;
use crate::order::sort_vec;
use crate::order::sorted_by_le;
use crate::order::lemma_sort_by_le_ensures;
use crate::order::lemma_sort_by_views;
use crate::strutil::first_idx;
use crate::strutil::lemma_first_idx;
use crate::strutil::lex_cmp;
use crate::strutil::lemma_lex_cmp_flip;
use crate::strutil::lemma_lex_cmp_trans;
use crate::strutil::push_char;
use crate::strutil::str_eq;
use crate::strutil::str_lex_cmp;
use crate::strutil::find_char;
use crate::timeutil::time_str_le;
use crate::timeutil::compare_time_string;
use crate::timeutil::lemma_time_str_le_total;
use crate::timeutil::lemma_time_str_le_trans;

/// Strings sort lexicographically by code point, which is the byte
/// order of their UTF-8 forms.
impl SortOrd for String {
    open spec fn le(self, other: Self) -> bool {
        lex_cmp(self@, other@) != Ordering::Greater
    }

    proof fn lemma_le_total(a: Self, b: Self) {
        lemma_lex_cmp_flip(a@, b@);
        lemma_lex_cmp_flip(b@, a@);
    }

    proof fn lemma_le_trans(a: Self, b: Self, c: Self) {
        lemma_lex_cmp_trans(a@, b@, c@);
    }

    fn le_exec(&self, other: &Self) -> (r: bool) {
        match str_lex_cmp(self.as_str(), other.as_str()) {
            Ordering::Greater => false,
            _ => true,
        }
    }
}

// ---------------------------------------------------------------------------
// Dates
// ---------------------------------------------------------------------------

/// `s` without its trailing slashes.
pub open spec fn trim_trailing_slash(s: Seq<char>) -> Seq<char>
    decreases s.len(),
{
    if s.len() > 0 && s.last() == '/' {
        trim_trailing_slash(s.drop_last())
    } else {
        s
    }
}

proof fn lemma_trim_trailing_slash_range(s: Seq<char>, j: int)
    requires
        0 <= j <= s.len(),
        forall|k: int| j <= k < s.len() ==> s[k] == '/',
        j > 0 ==> s[j - 1] != '/',
    ensures
        trim_trailing_slash(s) == s.subrange(0, j),
    decreases s.len(),
{
    if j == s.len() {
        assert(s.subrange(0, s.len() as int) =~= s);
    } else {
        let t = s.drop_last();
        lemma_trim_trailing_slash_range(t, j);
        assert(t.subrange(0, j) =~= s.subrange(0, j));
    }
}

/// The dates named by a page of listed common prefixes: each prefix
/// with its trailing slash removed, empty results dropped, order kept.
pub open spec fn spec_dates_from_prefixes(ps: Seq<Seq<char>>) -> Seq<Seq<char>>
    decreases ps.len(),
{
    if ps.len() == 0 {
        Seq::empty()
    } else {
        spec_dates_from_prefixes(ps.drop_last()) + (if trim_trailing_slash(ps.last()).len() > 0 {
            seq![trim_trailing_slash(ps.last())]
        } else {
            Seq::empty()
        })
    }
}

pub fn dates_from_prefixes(prefixes: &Vec<String>) -> (r: Vec<String>)
    ensures
        r.deep_view() == spec_dates_from_prefixes(prefixes.deep_view()),
{
    let ghost pv = prefixes.deep_view();
    let mut out: Vec<String> = Vec::new();
    proof {
        assert(pv.take(0) =~= Seq::<Seq<char>>::empty());
        assert(out.deep_view() =~= spec_dates_from_prefixes(pv.take(0)));
    }
    let mut i: usize = 0;
    while i < prefixes.len()
        invariant
            0 <= i <= prefixes@.len(),
            pv == prefixes.deep_view(),
            pv.len() == prefixes@.len(),
            forall|k: int| 0 <= k < prefixes@.len() ==> #[trigger] pv[k] == prefixes@[k]@,
            out.deep_view() == spec_dates_from_prefixes(pv.take(i as int)),
        decreases prefixes@.len() - i,
    {
        proof {
            assert(pv.take(i + 1 as int).drop_last() =~= pv.take(i as int));
            assert(pv.take(i + 1 as int).last() == pv[i as int]);
        }
        let ghost old_out = out.deep_view();
        let p: &str = prefixes[i].as_str();
        let n = p.unicode_len();
        let mut j: usize = n;
        while j > 0 && p.get_char(j - 1) == '/'
            invariant
                0 <= j <= n,
                n == p@.len(),
                forall|k: int| j <= k < n ==> p@[k] == '/',
            decreases j,
        {
            j = j - 1;
        }
        proof {
            lemma_trim_trailing_slash_range(p@, j as int);
        }
        if j > 0 {
            let trimmed = p.substring_char(0, j).to_owned();
            let ghost tv = trimmed@;
            out.push(trimmed);
            proof {
                assert(out.deep_view() =~= old_out + seq![tv]);
            }
        } else {
            proof {
                assert(out.deep_view() =~= old_out + Seq::<Seq<char>>::empty());
            }
        }
        i = i + 1;
    }
    proof {
        assert(pv.take(pv.len() as int) =~= pv);
    }
    out
}

/// The date segment a full key names: everything before its first
/// slash, or the whole key.
pub open spec fn key_first_segment(key: Seq<char>) -> Seq<char> {
    let i = first_idx(key, '/');
    if 0 <= i < key.len() {
        key.subrange(0, i)
    } else {
        key
    }
}

/// The dates named by a page of full keys, for stores that report no
/// common prefixes: each key's first path segment, empties dropped.
pub open spec fn spec_dates_from_keys(keys: Seq<Seq<char>>) -> Seq<Seq<char>>
    decreases keys.len(),
{
    if keys.len() == 0 {
        Seq::empty()
    } else {
        spec_dates_from_keys(keys.drop_last()) + (if key_first_segment(keys.last()).len() > 0 {
            seq![key_first_segment(keys.last())]
        } else {
            Seq::empty()
        })
    }
}

pub fn dates_from_keys(keys: &Vec<String>) -> (r: Vec<String>)
    ensures
        r.deep_view() == spec_dates_from_keys(keys.deep_view()),
{
    let ghost kv = keys.deep_view();
    let mut out: Vec<String> = Vec::new();
    proof {
        assert(kv.take(0) =~= Seq::<Seq<char>>::empty());
        assert(out.deep_view() =~= spec_dates_from_keys(kv.take(0)));
    }
    let mut i: usize = 0;
    while i < keys.len()
        invariant
            0 <= i <= keys@.len(),
            kv == keys.deep_view(),
            kv.len() == keys@.len(),
            forall|k: int| 0 <= k < keys@.len() ==> #[trigger] kv[k] == keys@[k]@,
            out.deep_view() == spec_dates_from_keys(kv.take(i as int)),
        decreases keys@.len() - i,
    {
        proof {
            assert(kv.take(i + 1 as int).drop_last() =~= kv.take(i as int));
            assert(kv.take(i + 1 as int).last() == kv[i as int]);
        }
        let ghost old_out = out.deep_view();
        let key: &str = keys[i].as_str();
        let n = key.unicode_len();
        proof {
            lemma_first_idx(key@, '/');
        }
        let seg: &str = match find_char(key, '/') {
            Some(p) => key.substring_char(0, p),
            None => key,
        };
        if seg.unicode_len() > 0 {
            let date = seg.to_owned();
            let ghost dv = date@;
            out.push(date);
            proof {
                assert(out.deep_view() =~= old_out + seq![dv]);
            }
        } else {
            proof {
                assert(out.deep_view() =~= old_out + Seq::<Seq<char>>::empty());
            }
        }
        i = i + 1;
    }
    proof {
        assert(kv.take(kv.len() as int) =~= kv);
    }
    out
}

/// Whether some element of `s` reads `x`.
pub open spec fn holds_str(s: Seq<String>, x: Seq<char>) -> bool {
    exists|i: int| 0 <= i < s.len() && (#[trigger] s[i])@ == x
}

/// Sort dates ascending and drop duplicates: the final shape of the
/// date listing.
pub fn finalize_dates(dates: &mut Vec<String>)
    ensures
        // strictly ascending: sorted with no duplicates
        forall|i: int, j: int|
            0 <= i < j < final(dates)@.len() ==> lex_cmp(
                #[trigger] final(dates)@[i]@,
                #[trigger] final(dates)@[j]@,
            ) == Ordering::Less,
        // the same set of dates as the input
        forall|x: Seq<char>| #[trigger]
            holds_str(final(dates)@, x) <==> holds_str(old(dates)@, x),
{
    sort_vec(dates);
    proof {
        lemma_sort_by_le_ensures(old(dates)@);
    }
    let ghost sorted = dates@;
    let mut out: Vec<String> = Vec::new();
    let mut i: usize = 0;
    while i < dates.len()
        invariant
            0 <= i <= dates@.len(),
            dates@ == sorted,
            sorted_by_le(sorted),
            forall|a: int, b: int|
                0 <= a < b < out@.len() ==> lex_cmp(#[trigger] out@[a]@, #[trigger] out@[b]@)
                    == Ordering::Less,
            forall|x: Seq<char>| #[trigger]
                holds_str(out@, x) <==> holds_str(sorted.take(i as int), x),
            out@.len() > 0 ==> i > 0 && out@.last()@ == sorted[i - 1]@,
            out@.len() == 0 ==> i == 0,
        decreases dates@.len() - i,
    {
        let cur: &String = &dates[i];
        let take_it: bool = if out.len() == 0 {
            true
        } else {
            !str_eq(out[out.len() - 1].as_str(), cur.as_str())
        };
        let ghost old_out = out@;
        proof {
            if old_out.len() > 0 {
                // the latest kept date equals the previous element of
                // the sorted input, so it sorts no later than the
                // current one; when the two differ it sorts strictly
                // before it
                let lastv = old_out[old_out.len() - 1]@;
                assert(lastv == sorted[i - 1]@);
                assert(sorted[i - 1].le(sorted[i as int]));
                lemma_lex_cmp_eq(lastv, cur@);
                if take_it {
                    assert(lex_cmp(lastv, cur@) == Ordering::Less);
                }
            }
        }
        if take_it {
            out.push(cur.clone());
            proof {
                assert forall|a: int| 0 <= a < old_out.len() implies lex_cmp(
                    #[trigger] old_out[a]@,
                    cur@,
                ) == Ordering::Less by {
                    if a < old_out.len() - 1 {
                        lemma_lex_lt_trans(old_out[a]@, old_out[old_out.len() - 1]@, cur@);
                    }
                }
            }
        }
        proof {
            let tk = sorted.take(i as int);
            let tk1 = sorted.take(i + 1 as int);
            assert(forall|b: int| 0 <= b < i + 1 ==> #[trigger] tk1[b] == sorted[b]);
            assert(forall|b: int| 0 <= b < i ==> #[trigger] tk[b] == sorted[b]);
            assert(cur@ == sorted[i as int]@);
            assert forall|x: Seq<char>| #[trigger]
                holds_str(out@, x) <==> holds_str(tk1, x) by {
                if holds_str(out@, x) {
                    let a = choose|a: int| 0 <= a < out@.len() && (#[trigger] out@[a])@ == x;
                    if a < old_out.len() {
                        assert(old_out[a]@ == x);
                        assert(holds_str(old_out, x));
                        let b = choose|b: int| 0 <= b < tk.len() && (#[trigger] tk[b])@ == x;
                        assert(tk1[b]@ == x);
                        assert(holds_str(tk1, x));
                    } else {
                        assert(out@[a]@ == cur@);
                        assert(tk1[i as int]@ == x);
                        assert(holds_str(tk1, x));
                    }
                }
                if holds_str(tk1, x) {
                    let b = choose|b: int| 0 <= b < tk1.len() && (#[trigger] tk1[b])@ == x;
                    if b < i {
                        assert(tk[b]@ == x);
                        assert(holds_str(tk, x));
                        assert(holds_str(old_out, x));
                        let a = choose|a: int| 0 <= a < old_out.len() && (#[trigger] old_out[a])@
                            == x;
                        assert(out@[a]@ == x);
                        assert(holds_str(out@, x));
                    } else {
                        // the current element: either it was pushed, or
                        // it equals the latest kept one
                        if take_it {
                            assert(out@[out@.len() - 1]@ == x);
                        } else {
                            assert(out@[out@.len() - 1]@ == cur@);
                        }
                        assert(holds_str(out@, x));
                    }
                }
            }
        }
        i = i + 1;
    }
    proof {
        assert(sorted.take(sorted.len() as int) =~= sorted);
        lemma_sort_permutes_views(old(dates)@);
    }
    *dates = out;
}

/// Two character sequences compare as equal exactly when they are
/// equal.
proof fn lemma_lex_cmp_eq(a: Seq<char>, b: Seq<char>)
    ensures
        lex_cmp(a, b) == Ordering::Equal <==> a == b,
    decreases a.len(),
{
    if a.len() == 0 && b.len() == 0 {
        assert(a =~= b);
    } else if a.len() > 0 && b.len() > 0 && a[0] == b[0] {
        lemma_lex_cmp_eq(a.drop_first(), b.drop_first());
        if lex_cmp(a, b) == Ordering::Equal {
            assert(a.drop_first() == b.drop_first());
            assert(forall|k: int| 1 <= k < a.len() ==> a[k] == a.drop_first()[k - 1]);
            assert(forall|k: int| 1 <= k < b.len() ==> b[k] == b.drop_first()[k - 1]);
            assert(a =~= b);
        }
        if a == b {
            assert(a.drop_first() =~= b.drop_first());
        }
    } else {
        if a == b && a.len() > 0 {
            assert(a[0] == b[0]);
        }
    }
}

/// Strictly-before is transitive.
proof fn lemma_lex_lt_trans(a: Seq<char>, b: Seq<char>, c: Seq<char>)
    requires
        lex_cmp(a, b) == Ordering::Less,
        lex_cmp(b, c) == Ordering::Less,
    ensures
        lex_cmp(a, c) == Ordering::Less,
{
    lemma_lex_cmp_trans(a, b, c);
    lemma_lex_cmp_eq(a, c);
    if lex_cmp(a, c) == Ordering::Equal {
        // then a == c, making b sort strictly both after a and before a
        lemma_lex_cmp_flip(a, b);
    }
}

// ---------------------------------------------------------------------------
// Meetings
// ---------------------------------------------------------------------------

/// One meeting of a day's listing, summarized from its objects.
pub struct MeetingSummary {
    pub id: String,
    pub date: String,
    pub room_id: String,
    pub room_label: String,
    pub meeting_time: String,
    pub speaker_count: usize,
    pub track_count: usize,
}

/// The mathematical image of a summary.
pub struct MeetingSummaryV {
    pub id: Seq<char>,
    pub date: Seq<char>,
    pub room_id: Seq<char>,
    pub room_label: Seq<char>,
    pub meeting_time: Seq<char>,
    pub speaker_count: int,
    pub track_count: int,
}

impl View for MeetingSummary {
    type V = MeetingSummaryV;

    open spec fn view(&self) -> MeetingSummaryV {
        MeetingSummaryV {
            id: self.id@,
            date: self.date@,
            room_id: self.room_id@,
            room_label: self.room_label@,
            meeting_time: self.meeting_time@,
            speaker_count: self.speaker_count as int,
            track_count: self.track_count as int,
        }
    }
}

impl DeepView for MeetingSummary {
    type V = MeetingSummaryV;

    open spec fn deep_view(&self) -> MeetingSummaryV {
        self.view()
    }
}

/// Meetings list most recent first: by meeting time, descending.
impl SortOrd for MeetingSummary {
    open spec fn le(self, other: Self) -> bool {
        time_str_le(other.meeting_time@, self.meeting_time@)
    }

    proof fn lemma_le_total(a: Self, b: Self) {
        lemma_time_str_le_total(b.meeting_time@, a.meeting_time@);
    }

    proof fn lemma_le_trans(a: Self, b: Self, c: Self) {
        lemma_time_str_le_trans(c.meeting_time@, b.meeting_time@, a.meeting_time@);
    }

    fn le_exec(&self, other: &Self) -> (r: bool) {
        match compare_time_string(other.meeting_time.as_str(), self.meeting_time.as_str()) {
            Ordering::Greater => false,
            _ => true,
        }
    }
}

/// The aggregation entry for one meeting while a listing is folded:
/// identity, the distinct speakers seen so far in first-seen order,
/// and the object count.
pub struct MeetingAccum {
    pub id: String,
    pub date: String,
    pub room_id: String,
    pub meeting_time: String,
    pub speakers: Vec<String>,
    pub track_count: usize,
}

pub struct MeetingAccumV {
    pub id: Seq<char>,
    pub date: Seq<char>,
    pub room_id: Seq<char>,
    pub meeting_time: Seq<char>,
    pub speakers: Seq<Seq<char>>,
    pub track_count: int,
}

impl View for MeetingAccum {
    type V = MeetingAccumV;

    open spec fn view(&self) -> MeetingAccumV {
        MeetingAccumV {
            id: self.id@,
            date: self.date@,
            room_id: self.room_id@,
            meeting_time: self.meeting_time@,
            speakers: self.speakers.deep_view(),
            track_count: self.track_count as int,
        }
    }
}

impl DeepView for MeetingAccum {
    type V = MeetingAccumV;

    open spec fn deep_view(&self) -> MeetingAccumV {
        self.view()
    }
}

/// The aggregation key of a parsed store key:
/// `{date}/{roomId}/{meetingTime}`.
pub open spec fn key_meeting_id(
    f: (Seq<char>, Seq<char>, Seq<char>, Seq<char>, Seq<char>),
) -> Seq<char> {
    f.0 + seq!['/'] + f.1 + seq!['/'] + f.2
}

/// The first entry carrying `id`, or -1.
pub open spec fn acc_find(acc: Seq<MeetingAccumV>, id: Seq<char>) -> int
    decreases acc.len(),
{
    if acc.len() == 0 {
        -1
    } else if acc[0].id == id {
        0
    } else {
        let r = acc_find(acc.drop_first(), id);
        if r < 0 {
            -1
        } else {
            r + 1
        }
    }
}

proof fn lemma_acc_find_is(acc: Seq<MeetingAccumV>, id: Seq<char>, j: int)
    requires
        0 <= j < acc.len(),
        acc[j].id == id,
        forall|k: int| 0 <= k < j ==> (#[trigger] acc[k]).id != id,
    ensures
        acc_find(acc, id) == j,
    decreases acc.len(),
{
    if j > 0 {
        lemma_acc_find_is(acc.drop_first(), id, j - 1);
    }
}

proof fn lemma_acc_find_none(acc: Seq<MeetingAccumV>, id: Seq<char>)
    requires
        forall|k: int| 0 <= k < acc.len() ==> (#[trigger] acc[k]).id != id,
    ensures
        acc_find(acc, id) == -1,
    decreases acc.len(),
{
    if acc.len() > 0 {
        assert(forall|k: int|
            0 <= k < acc.len() - 1 ==> #[trigger] acc.drop_first()[k] == acc[k + 1]);
        lemma_acc_find_none(acc.drop_first(), id);
    }
}

pub open spec fn seqs_contain(s: Seq<Seq<char>>, x: Seq<char>) -> bool {
    exists|i: int| 0 <= i < s.len() && s[i] == x
}

fn vec_contains_str(v: &Vec<String>, x: &str) -> (r: bool)
    ensures
        r == seqs_contain(v.deep_view(), x@),
{
    let mut i: usize = 0;
    while i < v.len()
        invariant
            0 <= i <= v@.len(),
            forall|k: int| 0 <= k < i ==> #[trigger] v.deep_view()[k] != x@,
        decreases v@.len() - i,
    {
        if str_eq(v[i].as_str(), x) {
            assert(v.deep_view()[i as int] == x@);
            return true;
        }
        i = i + 1;
    }
    false
}

/// One listed key folded into the aggregation: unparseable keys
/// change nothing; a parseable one joins its meeting's entry — a new
/// speaker is recorded, the object counted — or founds a new entry.
pub open spec fn acc_step(acc: Seq<MeetingAccumV>, key: Seq<char>) -> Seq<MeetingAccumV> {
    match spec_parse_key(key) {
        None => acc,
        Some(f) => {
            let id = key_meeting_id(f);
            let j = acc_find(acc, id);
            if 0 <= j < acc.len() {
                let e = acc[j];
                let speakers2 = if seqs_contain(e.speakers, f.3) {
                    e.speakers
                } else {
                    e.speakers.push(f.3)
                };
                acc.update(
                    j,
                    MeetingAccumV {
                        speakers: speakers2,
                        track_count: e.track_count + 1,
                        ..e
                    },
                )
            } else {
                acc.push(
                    MeetingAccumV {
                        id: id,
                        date: f.0,
                        room_id: f.1,
                        meeting_time: f.2,
                        speakers: seq![f.3],
                        track_count: 1,
                    },
                )
            }
        },
    }
}

/// The whole listing folded, in order.
pub open spec fn spec_fold_meetings(keys: Seq<Seq<char>>) -> Seq<MeetingAccumV>
    decreases keys.len(),
{
    if keys.len() == 0 {
        Seq::empty()
    } else {
        acc_step(spec_fold_meetings(keys.drop_last()), keys.last())
    }
}

/// The summary an aggregation entry yields.
pub open spec fn summary_of(e: MeetingAccumV) -> MeetingSummaryV {
    MeetingSummaryV {
        id: e.id,
        date: e.date,
        room_id: e.room_id,
        room_label: spec_extract_room_label(e.room_id),
        meeting_time: e.meeting_time,
        speaker_count: e.speakers.len() as int,
        track_count: e.track_count,
    }
}

pub open spec fn summaries_of(acc: Seq<MeetingAccumV>) -> Seq<MeetingSummaryV> {
    Seq::new(acc.len(), |i: int| summary_of(acc[i]))
}

pub open spec fn mv_le(a: MeetingSummaryV, b: MeetingSummaryV) -> bool {
    time_str_le(b.meeting_time, a.meeting_time)
}

pub open spec fn mv_leq() -> spec_fn(MeetingSummaryV, MeetingSummaryV) -> bool {
    |a: MeetingSummaryV, b: MeetingSummaryV| mv_le(a, b)
}

/// The meeting list a day's keys denote: one summary per meeting seen
/// among the parseable keys, ordered by meeting time descending,
/// stably.
pub open spec fn spec_meetings(keys: Seq<Seq<char>>) -> Seq<MeetingSummaryV> {
    sort_by(summaries_of(spec_fold_meetings(keys)), mv_leq())
}

/// Aggregate one date's listed keys into its meeting list.  Listing
/// zero objects yields the empty list, not an error.
pub fn meetings_from_keys(keys: &Vec<String>) -> (list: Vec<MeetingSummary>)
    ensures
        list.deep_view() == spec_meetings(keys.deep_view()),
        keys@.len() == 0 ==> list@.len() == 0,
{
    let ghost kv = keys.deep_view();
    let mut acc: Vec<MeetingAccum> = Vec::new();
    proof {
        assert(kv.take(0) =~= Seq::<Seq<char>>::empty());
        assert(acc.deep_view() =~= spec_fold_meetings(kv.take(0)));
    }
    let mut i: usize = 0;
    while i < keys.len()
        invariant
            0 <= i <= keys@.len(),
            kv == keys.deep_view(),
            kv.len() == keys@.len(),
            forall|k: int| 0 <= k < keys@.len() ==> #[trigger] kv[k] == keys@[k]@,
            acc.deep_view() == spec_fold_meetings(kv.take(i as int)),
            forall|j: int| 0 <= j < acc@.len() ==> (#[trigger] acc@[j]).track_count <= i,
        decreases keys@.len() - i,
    {
        proof {
            assert(kv.take(i + 1 as int).drop_last() =~= kv.take(i as int));
            assert(kv.take(i + 1 as int).last() == kv[i as int]);
        }
        let ghost old_acc = acc.deep_view();
        match parse_key(keys[i].as_str()) {
            None => {
                proof {
                    assert(acc.deep_view() =~= acc_step(old_acc, kv[i as int]));
                }
            },
            Some((date, room_id, meeting_time, speaker, _track)) => {
                let mut id = date.clone();
                push_char(&mut id, '/');
                let mut id = id.concat(room_id.as_str());
                push_char(&mut id, '/');
                let id = id.concat(meeting_time.as_str());
                let ghost f = (spec_parse_key(kv[i as int]))->0;
                proof {
                    assert(id@ =~= key_meeting_id(f));
                }
                // find this meeting's entry
                let mut j: usize = 0;
                let mut found = false;
                while j < acc.len()
                    invariant_except_break
                        0 <= j <= acc@.len(),
                        !found,
                        old_acc == acc.deep_view(),
                        old_acc.len() == acc@.len(),
                        forall|k: int| 0 <= k < j ==> (#[trigger] old_acc[k]).id != id@,
                    ensures
                        old_acc == acc.deep_view(),
                        old_acc.len() == acc@.len(),
                        found ==> j < acc@.len() && old_acc[j as int].id == id@ && forall|k: int|
                            0 <= k < j ==> (#[trigger] old_acc[k]).id != id@,
                        !found ==> forall|k: int|
                            0 <= k < acc@.len() ==> (#[trigger] old_acc[k]).id != id@,
                    decreases acc@.len() - j,
                {
                    if str_eq(acc[j].id.as_str(), id.as_str()) {
                        proof {
                            assert(old_acc[j as int].id == acc@[j as int].id@);
                        }
                        found = true;
                        break;
                    }
                    proof {
                        assert(old_acc[j as int].id == acc@[j as int].id@);
                    }
                    j = j + 1;
                }
                if found {
                    proof {
                        lemma_acc_find_is(old_acc, id@, j as int);
                    }
                    let ghost se = old_acc[j as int];
                    let mut e = acc.remove(j);
                    proof {
                        assert(e.deep_view() == se);
                    }
                    let ghost had = seqs_contain(se.speakers, f.3);
                    if !vec_contains_str(&e.speakers, speaker.as_str()) {
                        let ghost old_spk = e.speakers.deep_view();
                        e.speakers.push(speaker);
                        proof {
                            assert(e.speakers.deep_view() =~= old_spk.push(f.3));
                        }
                    }
                    e.track_count = e.track_count + 1;
                    let ghost ev = e.deep_view();
                    proof {
                        let spk2 = if had {
                            se.speakers
                        } else {
                            se.speakers.push(f.3)
                        };
                        assert(ev == MeetingAccumV {
                            speakers: spk2,
                            track_count: se.track_count + 1,
                            ..se
                        });
                    }
                    acc.insert(j, e);
                    proof {
                        assert(acc.deep_view() =~= old_acc.update(j as int, ev));
                        assert(acc_step(old_acc, kv[i as int]) == old_acc.update(j as int, ev));
                    }
                } else {
                    proof {
                        lemma_acc_find_none(old_acc, id@);
                    }
                    let mut speakers: Vec<String> = Vec::new();
                    speakers.push(speaker);
                    let e = MeetingAccum {
                        id,
                        date,
                        room_id,
                        meeting_time,
                        speakers,
                        track_count: 1,
                    };
                    let ghost ev = e.deep_view();
                    acc.push(e);
                    proof {
                        assert(ev.speakers =~= seq![f.3]);
                        assert(acc.deep_view() =~= old_acc.push(ev));
                        assert(acc.deep_view() =~= acc_step(old_acc, kv[i as int]));
                    }
                }
            },
        }
        i = i + 1;
    }
    proof {
        assert(kv.take(kv.len() as int) =~= kv);
    }
    // turn the aggregation into summaries
    let ghost accv = acc.deep_view();
    let mut list: Vec<MeetingSummary> = Vec::new();
    proof {
        assert(list.deep_view() =~= summaries_of(accv).take(0));
    }
    let mut i: usize = 0;
    while i < acc.len()
        invariant
            0 <= i <= acc@.len(),
            accv == acc.deep_view(),
            accv.len() == acc@.len(),
            list.deep_view() == summaries_of(accv).take(i as int),
        decreases acc@.len() - i,
    {
        let a = &acc[i];
        let ghost before = list.deep_view();
        let room_label = extract_room_label(a.room_id.as_str());
        let m = MeetingSummary {
            id: a.id.clone(),
            date: a.date.clone(),
            room_id: a.room_id.clone(),
            room_label,
            meeting_time: a.meeting_time.clone(),
            speaker_count: a.speakers.len(),
            track_count: a.track_count,
        };
        let ghost mv = m@;
        list.push(m);
        proof {
            assert(accv[i as int] == acc@[i as int].deep_view());
            assert(mv == summary_of(accv[i as int]));
            assert(list.deep_view() =~= before.push(mv));
            assert(list.deep_view() =~= summaries_of(accv).take(i + 1 as int));
        }
        i = i + 1;
    }
    proof {
        assert(summaries_of(accv).take(accv.len() as int) =~= summaries_of(accv));
    }
    let ghost unsorted = list@;
    sort_vec(&mut list);
    proof {
        assert(forall|a: MeetingSummary, b: MeetingSummary| #[trigger]
            a.le(b) <==> (mv_leq())(a.deep_view(), b.deep_view()));
        lemma_sort_by_views(unsorted, mv_leq());
        lemma_sort_by_le_ensures(unsorted);
    }
    list
}

/// A sorted permutation holds the views of exactly the same elements.
proof fn lemma_sort_permutes_views(s: Seq<String>)
    ensures
        forall|x: Seq<char>| #[trigger]
            holds_str(sort_by_le(s), x) <==> holds_str(s, x),
{
    broadcast use vstd::seq_lib::group_to_multiset_ensures;

    lemma_sort_by_le_ensures(s);
    assert forall|x: Seq<char>|
        #[trigger] holds_str(sort_by_le(s), x) <==> holds_str(s, x) by {
        let t = sort_by_le(s);
        if holds_str(t, x) {
            let i = choose|i: int| 0 <= i < t.len() && (#[trigger] t[i])@ == x;
            assert(t.to_multiset().contains(t[i]));
            assert(s.to_multiset().contains(t[i]));
            assert(s.contains(t[i]));
            let j = choose|j: int| 0 <= j < s.len() && s[j] == t[i];
            assert(s[j]@ == x);
        }
        if holds_str(s, x) {
            let i = choose|i: int| 0 <= i < s.len() && (#[trigger] s[i])@ == x;
            assert(s.to_multiset().contains(s[i]));
            assert(t.to_multiset().contains(s[i]));
            assert(t.contains(s[i]));
            let j = choose|j: int| 0 <= j < t.len() && t[j] == s[i];
            assert(t[j]@ == x);
        }
    }
}

} // verus!
