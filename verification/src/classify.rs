//! Classification of one archive: read its header, try the table of
//! contents, fall back to scanning early frames, and decide the display
//! name, the backing kind and the exposed size.

use vstd::prelude::*;
use crate::chdio::ChdHeaderInfo;
use crate::chdio::chd_header_of;
use crate::chdio::chd_header_ok;
use crate::chdio::chd_hunk_ok;
use crate::chdio::chd_metadata_ok;
use crate::chdio::chd_hunk_of;
use crate::chdio::chd_metadata_of;
use crate::chdio::chd_read_header;
use crate::chdio::chd_read_hunk;
use crate::chdio::chd_read_metadata;
use crate::geometry::BackingKind;
use crate::geometry::CdPayloadKind;
use crate::geometry::TocOutcome;
use crate::geometry::classify_toc;
use crate::geometry::toc_outcome_spec;
use crate::geometry::user_bytes;
use crate::geometry::user_bytes_spec;
use crate::track::TrackRecord;
use crate::track::parse_track_line;
use crate::track::spec_parse_track_line;
use vstd::arithmetic::div_mod::lemma_fundamental_div_mod;

verus! {

/// Metadata tag of a `CHTR` CD-track descriptor.
pub const CHTR_TAG: u32 = 0x43485452;

/// Metadata tag of a `CHT2` CD-track descriptor.
pub const CHT2_TAG: u32 = 0x43485432;

/// Bytes of the `.iso` suffix.
pub open spec fn iso_suffix() -> Seq<u8> {
    seq![46u8, 105u8, 115u8, 111u8]
}

/// Bytes of the ` (Form2).bin` suffix.
pub open spec fn form2_suffix() -> Seq<u8> {
    seq![32u8, 40u8, 70u8, 111u8, 114u8, 109u8, 50u8, 41u8, 46u8, 98u8, 105u8, 110u8]
}

/// Display name of an archive exposed with the given payload.
pub open spec fn name_for(stem: Seq<u8>, pk: CdPayloadKind) -> Seq<u8> {
    match pk {
        CdPayloadKind::Mode2Form2_2324 => stem + form2_suffix(),
        _ => stem + iso_suffix(),
    }
}

/// The track records parsed out of the `CHTR`/`CHT2` metadata entries,
/// in file order.
pub open spec fn tracks_from_meta(meta: Seq<(u32, Seq<u8>)>) -> Seq<TrackRecord>
    decreases meta.len(),
{
    if meta.len() == 0 {
        Seq::<TrackRecord>::empty()
    } else {
        let prev = tracks_from_meta(meta.drop_last());
        let last = meta.last();
        if (last.0 == CHTR_TAG || last.0 == CHT2_TAG) && spec_parse_track_line(last.1) is Some {
            prev.push(spec_parse_track_line(last.1).unwrap())
        } else {
            prev
        }
    }
}

/// The 2352 bytes of frame `frame`, taken out of its containing hunk.
pub open spec fn frame_bytes_of(archive: Seq<u8>, hunk_size: u32, frame: int) -> Seq<u8> {
    let fph = hunk_size as int / 2352;
    chd_hunk_of(archive, frame / fph).subrange(
        (frame % fph) * 2352,
        (frame % fph) * 2352 + 2352,
    )
}

/// Scan frames `frame..limit` for the first whose mode byte (offset 0x0F)
/// marks a data sector; exhaustion defaults to frame 0, Mode 1.
pub open spec fn scan_from(
    archive: Seq<u8>,
    hunk_size: u32,
    limit: u64,
    frame: u64,
    allow_form2: bool,
) -> (u64, CdPayloadKind)
    decreases limit - frame,
{
    if frame >= limit {
        (0u64, CdPayloadKind::Mode1_2048)
    } else {
        let mode = frame_bytes_of(archive, hunk_size, frame as int)[15];
        if mode == 1 {
            (frame, CdPayloadKind::Mode1_2048)
        } else if mode == 2 {
            if allow_form2 {
                (frame, CdPayloadKind::Mode2Form2_2324)
            } else {
                (frame, CdPayloadKind::Mode2Form1_2048)
            }
        } else {
            scan_from(archive, hunk_size, limit, (frame + 1) as u64, allow_form2)
        }
    }
}

proof fn lemma_scan_bounded(
    archive: Seq<u8>,
    hunk_size: u32,
    limit: u64,
    frame: u64,
    allow_form2: bool,
)
    ensures
        scan_from(archive, hunk_size, limit, frame, allow_form2).0 <= limit,
    decreases limit - frame,
{
    if frame >= limit {
    } else {
        let mode = frame_bytes_of(archive, hunk_size, frame as int)[15];
        if mode != 1 && mode != 2 {
            lemma_scan_bounded(archive, hunk_size, limit, (frame + 1) as u64, allow_form2);
        }
    }
}

/// What classification decides for one archive, when every call into the
/// codec succeeds.
pub enum ClassSpec {
    Shown { name: Seq<u8>, kind: BackingKind, size: int },
    Hidden,
}

pub open spec fn classify_cd_view(
    archive: Seq<u8>,
    stem: Seq<u8>,
    allow_form2: bool,
    h: ChdHeaderInfo,
) -> Option<ClassSpec> {
    let total = h.logical_bytes as int / 2352;
    let tracks = tracks_from_meta(chd_metadata_of(archive));
    match toc_outcome_spec(tracks, allow_form2) {
        TocOutcome::Located { first_data_lba, payload, track_frames } => Some(
            ClassSpec::Shown {
                name: name_for(stem, payload),
                kind: BackingKind::Cd2352 {
                    first_data_lba,
                    payload_kind: payload,
                    track_frames: Some(track_frames as u64),
                },
                size: track_frames * user_bytes_spec(payload),
            },
        ),
        TocOutcome::Hidden => Some(ClassSpec::Hidden),
        TocOutcome::LbaOverflow => None,
        TocOutcome::NoData => {
            if h.hunk_size < 2352 {
                None
            } else {
                let limit = if total < 2000 { total } else { 2000 };
                let found = scan_from(archive, h.hunk_size, limit as u64, 0, allow_form2);
                Some(
                    ClassSpec::Shown {
                        name: name_for(stem, found.1),
                        kind: BackingKind::Cd2352 {
                            first_data_lba: found.0,
                            payload_kind: found.1,
                            track_frames: None,
                        },
                        size: (total - found.0) * user_bytes_spec(found.1),
                    },
                )
            }
        },
    }
}

/// What classification decides for one archive: `None` when the archive
/// cannot be classified at all (its header is refused, or its geometry is
/// out of range).
pub open spec fn classify_view(archive: Seq<u8>, stem: Seq<u8>, allow_form2: bool) -> Option<
    ClassSpec,
> {
    match chd_header_of(archive) {
        None => None,
        Some(h) => {
            if h.unit_bytes == 2048 {
                Some(
                    ClassSpec::Shown {
                        name: stem + iso_suffix(),
                        kind: BackingKind::Dvd2048,
                        size: h.logical_bytes as int,
                    },
                )
            } else if h.unit_bytes == 2352 {
                classify_cd_view(archive, stem, allow_form2, h)
            } else {
                Some(
                    ClassSpec::Shown {
                        name: stem + iso_suffix(),
                        kind: BackingKind::Raw2048,
                        size: h.logical_bytes as int,
                    },
                )
            }
        },
    }
}

/// One entry ready for the index: display name, backing kind, exposed
/// size, and the archive's bytes.
pub struct EntryInit {
    pub name: Vec<u8>,
    pub kind: BackingKind,
    pub size: u64,
    pub archive: Vec<u8>,
}

/// Outcome of classifying one archive.
pub enum Classified {
    /// The archive is exposed under this entry.
    Entry(EntryInit),
    /// A Mode 2 Form 2 data track without the opt-in: the archive is hidden.
    Hidden,
    /// The archive could not be classified; it is skipped.
    Failed,
}

fn append_iso_suffix(name: &mut Vec<u8>)
    ensures
        final(name)@ == old(name)@ + iso_suffix(),
{
    name.push(46);
    name.push(105);
    name.push(115);
    name.push(111);
    assert(name@ =~= old(name)@ + iso_suffix());
}

fn append_form2_suffix(name: &mut Vec<u8>)
    ensures
        final(name)@ == old(name)@ + form2_suffix(),
{
    name.push(32);
    name.push(40);
    name.push(70);
    name.push(111);
    name.push(114);
    name.push(109);
    name.push(50);
    name.push(41);
    name.push(46);
    name.push(98);
    name.push(105);
    name.push(110);
    assert(name@ =~= old(name)@ + form2_suffix());
}

fn make_name(stem: &Vec<u8>, pk: CdPayloadKind) -> (r: Vec<u8>)
    ensures
        r@ == name_for(stem@, pk),
{
    let mut name = stem.clone();
    assert(name@ == stem@);
    match pk {
        CdPayloadKind::Mode2Form2_2324 => append_form2_suffix(&mut name),
        _ => append_iso_suffix(&mut name),
    }
    name
}

/// Parse every `CHTR`/`CHT2` metadata value into a track record.
fn collect_tracks(meta: &Vec<(u32, Vec<u8>)>) -> (r: Vec<TrackRecord>)
    ensures
        r@ == tracks_from_meta(meta@.map_values(|p: (u32, Vec<u8>)| (p.0, p.1@))),
{
    let ghost mview = meta@.map_values(|p: (u32, Vec<u8>)| (p.0, p.1@));
    let mut tracks: Vec<TrackRecord> = Vec::new();
    let n = meta.len();
    let mut i: usize = 0;
    while i < n
        invariant
            0 <= i <= n == meta@.len(),
            mview == meta@.map_values(|p: (u32, Vec<u8>)| (p.0, p.1@)),
            mview.len() == n,
            tracks@ == tracks_from_meta(mview.take(i as int)),
        decreases n - i,
    {
        proof {
            assert(mview.take(i + 1).drop_last() =~= mview.take(i as int));
            assert(mview.take(i + 1).last() == mview[i as int]);
            assert(mview[i as int] == (meta@[i as int].0, meta@[i as int].1@));
        }
        let tag = meta[i].0;
        if tag == CHTR_TAG || tag == CHT2_TAG {
            let parsed = parse_track_line(meta[i].1.as_slice());
            match parsed {
                Some(t) => tracks.push(t),
                None => (),
            }
        }
        i += 1;
    }
    proof {
        assert(mview.take(n as int) =~= mview);
    }
    tracks
}

/// Every hunk covering the scanned frames decodes.
pub open spec fn scan_hunks_ok(archive: Seq<u8>, hunk_size: u32, limit: u64) -> bool {
    forall|f: int|
        0 <= f < limit ==> #[trigger] chd_hunk_ok(archive, f / (hunk_size as int / 2352))
}

/// Scan the first frames (at most 2000) for a data sector, as
/// [`scan_from`] describes. Returns `None` when a hunk cannot be read.
fn scan_first_data(archive: &Vec<u8>, hunk_size: u32, limit: u64, allow_form2: bool) -> (r:
    Option<(u64, CdPayloadKind)>)
    requires
        hunk_size >= 2352,
        limit <= 2000,
        chd_header_of(archive@) matches Some(h) && h.hunk_size == hunk_size,
    ensures
        (r matches Some(p) ==> p == scan_from(archive@, hunk_size, limit, 0, allow_form2)),
        (scan_hunks_ok(archive@, hunk_size, limit) ==> r is Some),
{
    let fph: u32 = hunk_size / 2352;
    let mut frame: u64 = 0;
    while frame < limit
        invariant
            0 <= frame <= limit <= 2000,
            fph == hunk_size as int / 2352,
            fph >= 1,
            hunk_size >= 2352,
            chd_header_of(archive@) matches Some(h) && h.hunk_size == hunk_size,
            scan_from(archive@, hunk_size, limit, 0, allow_form2) == scan_from(
                archive@,
                hunk_size,
                limit,
                frame,
                allow_form2,
            ),
        decreases limit - frame,
    {
        let hunk_index: u64 = frame / fph as u64;
        let frame_in_hunk: u64 = frame % fph as u64;
        assert(hunk_index <= 2000) by {
            lemma_fundamental_div_mod(frame as int, fph as int);
        }
        proof {
            assert(hunk_index as int == frame as int / (hunk_size as int / 2352));
        }
        let hunk = match chd_read_hunk(archive, hunk_index as u32) {
            Some(v) => v,
            None => {
                proof {
                    if scan_hunks_ok(archive@, hunk_size, limit) {
                        assert(chd_hunk_ok(archive@, frame as int / (hunk_size as int / 2352)));
                        assert(false);
                    }
                }
                return None;
            },
        };
        proof {
            let hs = chd_header_of(archive@).unwrap().hunk_size;
            assert(hunk@.len() == hs);
        }
        if hunk.len() != hunk_size as usize {
            // unreachable under the header premise; kept as a guard
            proof {
                assert(false);
            }
            return None;
        }
        let base: usize = (frame_in_hunk as usize) * 2352;
        assert(base + 2352 <= hunk_size) by {
            lemma_fundamental_div_mod(frame as int, fph as int);
            lemma_fundamental_div_mod(hunk_size as int, 2352);
            assert(frame_in_hunk < fph);
            assert((frame_in_hunk + 1) * 2352 <= fph * 2352) by (nonlinear_arith)
                requires
                    frame_in_hunk < fph,
            ;
        }
        let mode = hunk[base + 15];
        proof {
            let fphi = hunk_size as int / 2352;
            assert(frame as int / fphi == hunk_index as int);
            assert(frame as int % fphi == frame_in_hunk as int);
            assert(frame_bytes_of(archive@, hunk_size, frame as int) =~= hunk@.subrange(
                base as int,
                base + 2352,
            ));
            assert(frame_bytes_of(archive@, hunk_size, frame as int)[15] == hunk@[base + 15]);
        }
        if mode == 1 {
            return Some((frame, CdPayloadKind::Mode1_2048));
        }
        if mode == 2 {
            if allow_form2 {
                return Some((frame, CdPayloadKind::Mode2Form2_2324));
            } else {
                return Some((frame, CdPayloadKind::Mode2Form1_2048));
            }
        }
        frame = frame + 1;
    }
    Some((0, CdPayloadKind::Mode1_2048))
}

/// The inputs on which classification is owed an outcome: the header
/// parses, and for a 2352-unit image the metadata reads, the running LBA
/// stays in range, and a metadata-less image has scannable early hunks.
pub open spec fn classify_ok(archive: Seq<u8>, allow_form2: bool) -> bool {
    &&& chd_header_ok(archive)
    &&& (chd_header_of(archive) matches Some(h) ==> (h.unit_bytes == 2352 ==> {
        let tracks = tracks_from_meta(chd_metadata_of(archive));
        let total = h.logical_bytes as int / 2352;
        let limit = if total < 2000 {
            total
        } else {
            2000int
        };
        &&& chd_metadata_ok(archive)
        &&& !(toc_outcome_spec(tracks, allow_form2) is LbaOverflow)
        &&& (toc_outcome_spec(tracks, allow_form2) is NoData ==> h.hunk_size >= 2352
            && scan_hunks_ok(archive, h.hunk_size, limit as u64))
    }))
}

/// Classify one archive. `stem` is the source file name without its
/// extension; the returned entry keeps the archive bytes for reading.
pub fn classify_archive(stem: &Vec<u8>, archive: Vec<u8>, allow_form2: bool) -> (r: Classified)
    ensures
        (r matches Classified::Entry(e) ==> classify_view(archive@, stem@, allow_form2)
            matches Some(ClassSpec::Shown { name, kind, size }) && e.name@ == name && e.kind
            == kind && e.size == size && e.archive@ == archive@),
        (r is Hidden ==> classify_view(archive@, stem@, allow_form2) == Some(ClassSpec::Hidden)),
        (classify_ok(archive@, allow_form2) ==> !(r is Failed)),
        (r matches Classified::Entry(e) ==> (e.kind matches BackingKind::Cd2352 {
            first_data_lba,
            track_frames: None,
            ..
        } ==> chd_header_of(archive@) matches Some(h) && first_data_lba <= h.logical_bytes
            / 2352)),
{
    let h = match chd_read_header(&archive) {
        Some(h) => h,
        None => return Classified::Failed,
    };
    if h.unit_bytes == 2048 {
        let mut name = stem.clone();
        append_iso_suffix(&mut name);
        return Classified::Entry(
            EntryInit { name, kind: BackingKind::Dvd2048, size: h.logical_bytes, archive },
        );
    }
    if h.unit_bytes != 2352 {
        let mut name = stem.clone();
        append_iso_suffix(&mut name);
        return Classified::Entry(
            EntryInit { name, kind: BackingKind::Raw2048, size: h.logical_bytes, archive },
        );
    }
    let total: u64 = h.logical_bytes / 2352;
    let meta = match chd_read_metadata(&archive) {
        Some(m) => m,
        None => {
            proof {
                if classify_ok(archive@, allow_form2) {
                    assert(chd_metadata_ok(archive@));
                    assert(false);
                }
            }
            return Classified::Failed;
        },
    };
    let tracks = collect_tracks(&meta);
    let outcome = classify_toc(&tracks, allow_form2);
    match outcome {
        TocOutcome::Located { first_data_lba, payload, track_frames } => {
            let ub = user_bytes(payload);
            assert(track_frames as int * ub as int <= 0xffff_ffffu64 * 2352)
                by (nonlinear_arith)
                requires
                    track_frames <= 0xffff_ffffu32,
                    ub <= 2352,
            ;
            let size: u64 = (track_frames as u64) * ub;
            let name = make_name(stem, payload);
            Classified::Entry(
                EntryInit {
                    name,
                    kind: BackingKind::Cd2352 {
                        first_data_lba,
                        payload_kind: payload,
                        track_frames: Some(track_frames as u64),
                    },
                    size,
                    archive,
                },
            )
        },
        TocOutcome::Hidden => Classified::Hidden,
        TocOutcome::LbaOverflow => {
            proof {
                if classify_ok(archive@, allow_form2) {
                    assert(false);
                }
            }
            Classified::Failed
        },
        TocOutcome::NoData => {
            if h.hunk_size < 2352 {
                proof {
                    if classify_ok(archive@, allow_form2) {
                        assert(false);
                    }
                }
                return Classified::Failed;
            }
            let limit: u64 = if total < 2000 {
                total
            } else {
                2000
            };
            let found = match scan_first_data(&archive, h.hunk_size, limit, allow_form2) {
                Some(p) => p,
                None => {
                    proof {
                        if classify_ok(archive@, allow_form2) {
                            assert(scan_hunks_ok(archive@, h.hunk_size, limit));
                            assert(false);
                        }
                    }
                    return Classified::Failed;
                },
            };
            let (lba, payload) = found;
            proof {
                lemma_scan_bounded(archive@, h.hunk_size, limit, 0, allow_form2);
                lemma_fundamental_div_mod(h.logical_bytes as int, 2352);
                let ub = user_bytes_spec(payload);
                assert((total - lba) * ub <= total as int * 2352) by (nonlinear_arith)
                    requires
                        0 <= lba <= total,
                        0 < ub <= 2352,
                ;
                assert(total as int * 2352 <= h.logical_bytes as int);
            }
            let ub = user_bytes(payload);
            let size: u64 = (total - lba) * ub;
            let name = make_name(stem, payload);
            Classified::Entry(
                EntryInit {
                    name,
                    kind: BackingKind::Cd2352 {
                        first_data_lba: lba,
                        payload_kind: payload,
                        track_frames: None,
                    },
                    size,
                    archive,
                },
            )
        },
    }
}

} // verus!
