//! Disc-geometry classification: payload kinds, the walk over a sorted
//! table of contents that locates the first data track, and the display
//! names under which an archive is exposed.

use vstd::prelude::*;
use crate::track::TrackKind;
use crate::track::TrackRecord;

verus! {

/// Layout of the user payload inside a 2352-byte raw CD frame.
#[derive(Clone, Copy, Debug, PartialEq, Eq, Structural)]
pub enum CdPayloadKind {
    Mode1_2048,
    Mode2Form1_2048,
    Mode2Form2_2324,
}

/// How an archive's bytes back the exposed virtual file.
#[derive(Clone, Copy, Debug, PartialEq, Eq, Structural)]
pub enum BackingKind {
    /// 2048-byte units: direct passthrough.
    Dvd2048,
    /// 2352-byte raw frames: user-payload view.
    Cd2352 { first_data_lba: u64, payload_kind: CdPayloadKind, track_frames: Option<u64> },
    /// Units of any other size: exposed unchanged, like a DVD.
    Raw2048,
}

/// Bytes of user payload per frame.
pub open spec fn user_bytes_spec(pk: CdPayloadKind) -> u64 {
    match pk {
        CdPayloadKind::Mode1_2048 => 2048u64,
        CdPayloadKind::Mode2Form1_2048 => 2048u64,
        CdPayloadKind::Mode2Form2_2324 => 2324u64,
    }
}

/// Offset of the user payload inside the 2352-byte frame.
pub open spec fn payload_offset_spec(pk: CdPayloadKind) -> u64 {
    match pk {
        CdPayloadKind::Mode1_2048 => 16u64,
        CdPayloadKind::Mode2Form1_2048 => 24u64,
        CdPayloadKind::Mode2Form2_2324 => 24u64,
    }
}

pub fn user_bytes(pk: CdPayloadKind) -> (r: u64)
    ensures
        r == user_bytes_spec(pk),
{
    match pk {
        CdPayloadKind::Mode1_2048 => 2048,
        CdPayloadKind::Mode2Form1_2048 => 2048,
        CdPayloadKind::Mode2Form2_2324 => 2324,
    }
}

pub fn payload_offset(pk: CdPayloadKind) -> (r: u64)
    ensures
        r == payload_offset_spec(pk),
{
    match pk {
        CdPayloadKind::Mode1_2048 => 16,
        CdPayloadKind::Mode2Form1_2048 => 24,
        CdPayloadKind::Mode2Form2_2324 => 24,
    }
}

/// Result of walking the table of contents.
pub enum TocDecision {
    /// A data track was found: its absolute start LBA and its length in frames.
    Located { lba: int, payload: CdPayloadKind, frames: u32 },
    /// A Mode 2 Form 2 track was met without the opt-in: hide the archive.
    Hidden,
    /// Only audio or raw tracks: fall back to scanning frames.
    NoData,
}

/// Walk tracks in order, keeping a running absolute LBA. Each track first
/// contributes its pregap; a Mode 1 or Mode 2 Form 1 track is the data
/// track; a Mode 2 Form 2 track is the data track only under the opt-in
/// and otherwise hides the archive; audio and raw tracks pass by with
/// their frames and postgap.
pub open spec fn walk_tracks(tracks: Seq<TrackRecord>, allow_form2: bool, lba: int) -> TocDecision
    decreases tracks.len(),
{
    if tracks.len() == 0 {
        TocDecision::NoData
    } else {
        let t = tracks[0];
        let at = lba + t.pregap;
        match t.kind {
            TrackKind::Mode1 => TocDecision::Located {
                lba: at,
                payload: CdPayloadKind::Mode1_2048,
                frames: t.frames,
            },
            TrackKind::Mode2Form1 => TocDecision::Located {
                lba: at,
                payload: CdPayloadKind::Mode2Form1_2048,
                frames: t.frames,
            },
            TrackKind::Mode2Form2 => if allow_form2 {
                TocDecision::Located {
                    lba: at,
                    payload: CdPayloadKind::Mode2Form2_2324,
                    frames: t.frames,
                }
            } else {
                TocDecision::Hidden
            },
            _ => walk_tracks(tracks.drop_first(), allow_form2, at + t.frames + t.postgap),
        }
    }
}

/// Stable insertion of a track into a run already sorted by track number:
/// the new track goes after any track with the same number.
pub open spec fn insert_by_number(s: Seq<TrackRecord>, t: TrackRecord) -> Seq<TrackRecord>
    decreases s.len(),
{
    if s.len() == 0 {
        seq![t]
    } else if t.number < s[0].number {
        seq![t] + s
    } else {
        seq![s[0]] + insert_by_number(s.drop_first(), t)
    }
}

/// Stable insertion sort by track number.
pub open spec fn sort_tracks_spec(s: Seq<TrackRecord>) -> Seq<TrackRecord>
    decreases s.len(),
{
    if s.len() == 0 {
        Seq::<TrackRecord>::empty()
    } else {
        insert_by_number(sort_tracks_spec(s.drop_last()), s.last())
    }
}

/// Number of leading elements of `s` whose track number is at most `t`'s.
pub open spec fn insert_position(s: Seq<TrackRecord>, t: TrackRecord) -> int
    decreases s.len(),
{
    if s.len() == 0 {
        0
    } else if t.number < s[0].number {
        0
    } else {
        1 + insert_position(s.drop_first(), t)
    }
}

proof fn lemma_insert_position(s: Seq<TrackRecord>, t: TrackRecord)
    ensures
        0 <= insert_position(s, t) <= s.len(),
        insert_by_number(s, t) == s.take(insert_position(s, t)) + seq![t] + s.skip(
            insert_position(s, t),
        ),
        forall|k: int| 0 <= k < insert_position(s, t) ==> !(t.number < s[k].number),
        insert_position(s, t) < s.len() ==> t.number < s[insert_position(s, t)].number,
    decreases s.len(),
{
    if s.len() == 0 {
        assert(insert_by_number(s, t) =~= s.take(0) + seq![t] + s.skip(0));
    } else if t.number < s[0].number {
        assert(insert_by_number(s, t) =~= s.take(0) + seq![t] + s.skip(0));
    } else {
        let rest = s.drop_first();
        lemma_insert_position(rest, t);
        let p = insert_position(rest, t);
        assert(insert_by_number(s, t) == seq![s[0]] + insert_by_number(rest, t));
        assert(seq![s[0]] + (rest.take(p) + seq![t] + rest.skip(p)) =~= s.take(p + 1) + seq![t]
            + s.skip(p + 1));
        assert forall|k: int| 0 <= k < p + 1 implies !(t.number < s[k].number) by {
            if k > 0 {
                assert(s[k] == rest[k - 1]);
            }
        }
        if p + 1 < s.len() {
            assert(s[p + 1] == rest[p]);
        }
    }
}

/// Sort tracks by track number, keeping the original order of tracks
/// that share a number.
pub fn sort_tracks(tracks: &Vec<TrackRecord>) -> (r: Vec<TrackRecord>)
    ensures
        r@ == sort_tracks_spec(tracks@),
{
    let mut out: Vec<TrackRecord> = Vec::new();
    let n = tracks.len();
    let mut i: usize = 0;
    while i < n
        invariant
            0 <= i <= n == tracks@.len(),
            out@ == sort_tracks_spec(tracks@.take(i as int)),
        decreases n - i,
    {
        let t = tracks[i];
        proof {
            lemma_insert_position(out@, t);
            assert(tracks@.take(i + 1).drop_last() =~= tracks@.take(i as int));
            assert(tracks@.take(i + 1).last() == tracks@[i as int]);
        }
        // find the stable insertion position
        let m = out.len();
        let mut k: usize = 0;
        while k < m && out[k].number <= t.number
            invariant
                0 <= k <= m == out@.len(),
                forall|j: int| 0 <= j < k ==> !(t.number < out@[j].number),
            decreases m - k,
        {
            k += 1;
        }
        proof {
            let p = insert_position(out@, t);
            lemma_insert_position(out@, t);
            if p < k {
                assert(t.number < out@[p].number);
                assert(!(t.number < out@[p].number));
            }
            if k < p {
                assert(t.number < out@[k as int].number);
                assert(!(t.number < out@[k as int].number));
            }
            assert(p == k);
        }
        let ghost before = out@;
        out.insert(k, t);
        proof {
            assert(out@ =~= before.take(k as int) + seq![t] + before.skip(k as int));
        }
        i += 1;
    }
    proof {
        assert(tracks@.take(n as int) =~= tracks@);
    }
    out
}

/// Exec-side result of TOC classification.
#[derive(Clone, Copy, Debug, PartialEq, Eq, Structural)]
pub enum TocOutcome {
    Located { first_data_lba: u64, payload: CdPayloadKind, track_frames: u32 },
    Hidden,
    NoData,
    /// The running LBA of the data track does not fit in 64 bits; the
    /// archive cannot be classified.
    LbaOverflow,
}

/// What [`classify_toc`] returns: the walk over the sorted tracks, with
/// an out-of-range LBA mapped to [`TocOutcome::LbaOverflow`].
pub open spec fn toc_outcome_spec(tracks: Seq<TrackRecord>, allow_form2: bool) -> TocOutcome {
    match walk_tracks(sort_tracks_spec(tracks), allow_form2, 0) {
        TocDecision::Located { lba, payload, frames } => if lba <= u64::MAX {
            TocOutcome::Located { first_data_lba: lba as u64, payload, track_frames: frames }
        } else {
            TocOutcome::LbaOverflow
        },
        TocDecision::Hidden => TocOutcome::Hidden,
        TocDecision::NoData => TocOutcome::NoData,
    }
}

/// Sort the parsed tracks by number and walk them for the first data track.
pub fn classify_toc(tracks: &Vec<TrackRecord>, allow_form2: bool) -> (r: TocOutcome)
    ensures
        r == toc_outcome_spec(tracks@, allow_form2),
{
    let sorted = sort_tracks(tracks);
    let n = sorted.len();
    let mut lba: u128 = 0;
    let mut i: usize = 0;
    proof {
        assert(sorted@.skip(0) =~= sorted@);
    }
    while i < n
        invariant
            sorted@ == sort_tracks_spec(tracks@),
            0 <= i <= n == sorted@.len(),
            lba <= (i as int) * (3 * 0xffff_ffffu64 as int),
            walk_tracks(sorted@, allow_form2, 0) == walk_tracks(
                sorted@.skip(i as int),
                allow_form2,
                lba as int,
            ),
        decreases n - i,
    {
        let t = sorted[i];
        proof {
            let rest = sorted@.skip(i as int);
            assert(rest[0] == sorted@[i as int]);
            assert(rest.drop_first() =~= sorted@.skip(i + 1));
            assert((i as int) * (3 * 0xffff_ffffu64 as int) <= (n as int) * (3
                * 0xffff_ffffu64 as int)) by (nonlinear_arith)
                requires
                    0 <= i <= n,
            ;
            assert((i + 1) * (3 * 0xffff_ffffu64 as int) == (i as int) * (3
                * 0xffff_ffffu64 as int) + 3 * 0xffff_ffffu64 as int) by (nonlinear_arith);
            assert((n as int) * (3 * 0xffff_ffffu64 as int) < u128::MAX - 3
                * 0xffff_ffffu64 as int) by (nonlinear_arith)
                requires
                    n <= usize::MAX,
            ;
        }
        let at: u128 = lba + t.pregap as u128;
        match t.kind {
            TrackKind::Mode1 => {
                if at > u64::MAX as u128 {
                    return TocOutcome::LbaOverflow;
                }
                return TocOutcome::Located {
                    first_data_lba: at as u64,
                    payload: CdPayloadKind::Mode1_2048,
                    track_frames: t.frames,
                };
            },
            TrackKind::Mode2Form1 => {
                if at > u64::MAX as u128 {
                    return TocOutcome::LbaOverflow;
                }
                return TocOutcome::Located {
                    first_data_lba: at as u64,
                    payload: CdPayloadKind::Mode2Form1_2048,
                    track_frames: t.frames,
                };
            },
            TrackKind::Mode2Form2 => {
                if !allow_form2 {
                    return TocOutcome::Hidden;
                }
                if at > u64::MAX as u128 {
                    return TocOutcome::LbaOverflow;
                }
                return TocOutcome::Located {
                    first_data_lba: at as u64,
                    payload: CdPayloadKind::Mode2Form2_2324,
                    track_frames: t.frames,
                };
            },
            _ => {
                lba = at + t.frames as u128 + t.postgap as u128;
            },
        }
        i += 1;
    }
    proof {
        assert(sorted@.skip(n as int) =~= Seq::<TrackRecord>::empty());
    }
    TocOutcome::NoData
}

} // verus!
