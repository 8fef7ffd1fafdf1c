//! The object-key codec.  Keys follow the wire format
//! `{date}/{roomId}/{meetingTime}/{speaker}/{trackTime}_{suffix}.{ext}`:
//! exactly five `/`-separated segments, with the track's start time
//! taken from the final segment before its first `_`, after stripping
//! the audio extension.

use vstd::prelude::*;

verus! {

use vstd::string::StrSliceExecFns;
use crate::strutil::contains_char;
use crate::strutil::ends_with;
use crate::strutil::ends_with_spec;
use crate::strutil::find_char;
use crate::strutil::first_idx;
use crate::strutil::lemma_first_idx;
use crate::strutil::lemma_first_idx_is;
use crate::strutil::lemma_first_idx_none;
use crate::strutil::split_char;
use crate::strutil::split_spec;
use crate::strutil::starts_with;
use crate::strutil::starts_with_spec;

/// `s` without the suffix `suf`, removed once when present.
pub open spec fn strip_suffix_spec(s: Seq<char>, suf: Seq<char>) -> Seq<char> {
    if ends_with_spec(s, suf) {
        s.subrange(0, s.len() - suf.len())
    } else {
        s
    }
}

/// The part of `s` before the first occurrence of `c`, or all of `s`.
pub open spec fn before_first(s: Seq<char>, c: char) -> Seq<char> {
    let i = first_idx(s, c);
    if 0 <= i < s.len() {
        s.subrange(0, i)
    } else {
        s
    }
}

/// The track time encoded in a key's final segment: the file name
/// without its audio extension, up to the first `_`.
pub open spec fn spec_track_time_of(file: Seq<char>) -> Seq<char> {
    before_first(strip_suffix_spec(file, ".ogg"@), '_')
}

/// The five components a well-formed key denotes.
pub open spec fn spec_parse_key(key: Seq<char>) -> Option<
    (Seq<char>, Seq<char>, Seq<char>, Seq<char>, Seq<char>),
> {
    let parts = split_spec(key, '/');
    if parts.len() == 5 {
        Some((parts[0], parts[1], parts[2], parts[3], spec_track_time_of(parts[4])))
    } else {
        None
    }
}

/// Split a store key into `(date, roomId, meetingTime, speaker,
/// trackTime)`.  A key with any other number of `/`-separated segments
/// yields nothing and is simply ignored by listing code.
pub fn parse_key(key: &str) -> (r: Option<(String, String, String, String, String)>)
    ensures
        r is Some <==> split_spec(key@, '/').len() == 5,
        r is Some ==> spec_parse_key(key@) == Some(
            ((r->0).0@, (r->0).1@, (r->0).2@, (r->0).3@, (r->0).4@),
        ),
{
    let parts = split_char(key, '/');
    if parts.len() != 5 {
        return None;
    }
    proof {
        assert(forall|k: int|
            0 <= k < 5 ==> parts.deep_view()[k] == #[trigger] parts@[k]@);
    }
    let date = parts[0].clone();
    let room_id = parts[1].clone();
    let meeting_time = parts[2].clone();
    let speaker = parts[3].clone();
    let file: &str = parts[4].as_str();
    let flen = file.unicode_len();
    let stripped: &str = if ends_with(file, ".ogg") {
        proof {
            reveal_strlit(".ogg");
        }
        file.substring_char(0, flen - 4)
    } else {
        file
    };
    proof {
        assert(stripped@ == strip_suffix_spec(file@, ".ogg"@));
    }
    let track_time: String = match find_char(stripped, '_') {
        Some(i) => {
            proof {
                lemma_first_idx(stripped@, '_');
            }
            stripped.substring_char(0, i).to_owned()
        },
        None => stripped.to_owned(),
    };
    Some((date, room_id, meeting_time, speaker, track_time))
}

/// The room label shown to users: for ids of the form
/// `localWorld.{anything}-{label}` with a non-empty label, the text
/// after the first hyphen that follows the prefix; otherwise the raw id.
pub open spec fn spec_extract_room_label(room_id: Seq<char>) -> Seq<char> {
    let p = "localWorld."@;
    if starts_with_spec(room_id, p) {
        let rest = room_id.subrange(p.len() as int, room_id.len() as int);
        let i = first_idx(rest, '-');
        if 0 <= i && i + 1 < rest.len() {
            rest.subrange(i + 1, rest.len() as int)
        } else {
            room_id
        }
    } else {
        room_id
    }
}

pub fn extract_room_label(room_id: &str) -> (r: String)
    ensures
        r@ == spec_extract_room_label(room_id@),
{
    if starts_with(room_id, "localWorld.") {
        let n = room_id.unicode_len();
        let plen = "localWorld.".unicode_len();
        let rest = room_id.substring_char(plen, n);
        match find_char(rest, '-') {
            Some(i) => {
                proof {
                    lemma_first_idx(rest@, '-');
                }
                if i + 1 < rest.unicode_len() {
                    rest.substring_char(i + 1, rest.unicode_len()).to_owned()
                } else {
                    room_id.to_owned()
                }
            },
            None => room_id.to_owned(),
        }
    } else {
        room_id.to_owned()
    }
}

// ---------------------------------------------------------------------------
// Round trip
// ---------------------------------------------------------------------------

proof fn lemma_split_no_sep(s: Seq<char>, c: char)
    requires
        !contains_char(s, c),
    ensures
        split_spec(s, c) == seq![s],
{
    lemma_first_idx_none(s, c);
}

proof fn lemma_split_concat(a: Seq<char>, b: Seq<char>, c: char)
    requires
        !contains_char(a, c),
    ensures
        split_spec(a + seq![c] + b, c) == seq![a] + split_spec(b, c),
{
    let s = a + seq![c] + b;
    assert(s[a.len() as int] == c);
    assert(forall|k: int| 0 <= k < a.len() ==> s[k] == a[k]);
    lemma_first_idx_is(s, c, a.len() as int);
    assert(s.subrange(0, a.len() as int) =~= a);
    assert(s.subrange(a.len() + 1 as int, s.len() as int) =~= b);
}

/// Round trip of the key wire format: a key assembled from components
/// that avoid the structural characters parses back to exactly those
/// components.  `suffix` is the part of the file name after the first
/// `_`; a `None` suffix builds a file name without any `_`.
pub proof fn lemma_parse_key_round_trip(
    date: Seq<char>,
    room_id: Seq<char>,
    meeting_time: Seq<char>,
    speaker: Seq<char>,
    track_time: Seq<char>,
    suffix: Option<Seq<char>>,
)
    requires
        !contains_char(date, '/'),
        !contains_char(room_id, '/'),
        !contains_char(meeting_time, '/'),
        !contains_char(speaker, '/'),
        !contains_char(track_time, '/'),
        !contains_char(track_time, '_'),
        suffix is Some ==> !contains_char(suffix->0, '/'),
    ensures
        ({
            let file = match suffix {
                Some(suf) => track_time + seq!['_'] + suf + ".ogg"@,
                None => track_time + ".ogg"@,
            };
            let key = date + seq!['/'] + room_id + seq!['/'] + meeting_time + seq!['/'] + speaker
                + seq!['/'] + file;
            spec_parse_key(key) == Some((date, room_id, meeting_time, speaker, track_time))
        }),
{
    reveal_strlit(".ogg");
    let stem = match suffix {
        Some(suf) => track_time + seq!['_'] + suf,
        None => track_time,
    };
    let file = match suffix {
        Some(suf) => track_time + seq!['_'] + suf + ".ogg"@,
        None => track_time + ".ogg"@,
    };
    assert(file =~= stem + ".ogg"@);
    let key = date + seq!['/'] + room_id + seq!['/'] + meeting_time + seq!['/'] + speaker + seq![
        '/',
    ] + file;
    assert(!contains_char(file, '/')) by {
        assert(forall|k: int| 0 <= k < track_time.len() ==> file[k] == track_time[k]);
        if contains_char(file, '/') {
            let k = choose|k: int| 0 <= k < file.len() && file[k] == '/';
            assert(".ogg"@.len() == 4);
            if k < stem.len() {
                match suffix {
                    Some(suf) => {
                        if k < track_time.len() {
                        } else if k == track_time.len() {
                        } else {
                            assert(stem[k] == suf[k - track_time.len() - 1]);
                        }
                    },
                    None => {},
                }
            } else {
                assert(file[k] == ".ogg"@[k - stem.len()]);
            }
        }
    }
    let tail3 = speaker + seq!['/'] + file;
    let tail2 = meeting_time + seq!['/'] + tail3;
    let tail1 = room_id + seq!['/'] + tail2;
    assert(key =~= date + seq!['/'] + tail1);
    lemma_split_concat(date, tail1, '/');
    assert(tail1 =~= room_id + seq!['/'] + tail2);
    lemma_split_concat(room_id, tail2, '/');
    assert(tail2 =~= meeting_time + seq!['/'] + tail3);
    lemma_split_concat(meeting_time, tail3, '/');
    assert(tail3 =~= speaker + seq!['/'] + file);
    lemma_split_concat(speaker, file, '/');
    lemma_split_no_sep(file, '/');
    let parts = split_spec(key, '/');
    assert(parts =~= seq![date, room_id, meeting_time, speaker, file]);
    // The extension strips back off, and the first `_` sits right at the
    // end of the track time.
    assert(ends_with_spec(file, ".ogg"@)) by {
        assert(forall|k: int|
            0 <= k < 4 ==> file[stem.len() + k] == ".ogg"@[k]);
        assert(file.subrange(file.len() - 4, file.len() as int) =~= ".ogg"@);
    }
    assert(strip_suffix_spec(file, ".ogg"@) =~= stem);
    match suffix {
        Some(suf) => {
            assert(stem[track_time.len() as int] == '_');
            assert(forall|k: int| 0 <= k < track_time.len() ==> stem[k] == track_time[k]);
            lemma_first_idx_is(stem, '_', track_time.len() as int);
            assert(stem.subrange(0, track_time.len() as int) =~= track_time);
        },
        None => {
            lemma_first_idx_none(stem, '_');
        },
    }
    assert(spec_track_time_of(file) == track_time);
}

} // verus!
