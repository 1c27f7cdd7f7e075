//! Track-line parsing and TOC classification on plain values.

use chd2iso::geometry::{classify_toc, CdPayloadKind, TocOutcome};
use chd2iso::track::{parse_track_line, TrackKind, TrackRecord};

fn track(number: u32, kind: TrackKind, frames: u32, pregap: u32, postgap: u32) -> TrackRecord {
    TrackRecord { number, kind, frames, pregap, postgap }
}

#[test]
fn parse_full_track_line() {
    let line = b"TRACK:1 TYPE:MODE1 SUBTYPE:NONE FRAMES:26888 PREGAP:0 PGTYPE:MODE1 PGSUB:RW_RAW POSTGAP:0\0";
    let t = parse_track_line(line).expect("parses");
    assert_eq!(t.number, 1);
    assert_eq!(t.kind, TrackKind::Mode1);
    assert_eq!(t.frames, 26888);
    assert_eq!(t.pregap, 0);
    assert_eq!(t.postgap, 0);
}

#[test]
fn parse_requires_track_and_type() {
    assert!(parse_track_line(b"TYPE:MODE1 FRAMES:10").is_none());
    assert!(parse_track_line(b"TRACK:1 FRAMES:10").is_none());
    assert!(parse_track_line(b"").is_none());
}

#[test]
fn parse_type_table() {
    let kind = |ty: &str| {
        let line = format!("TRACK:1 TYPE:{ty}");
        parse_track_line(line.as_bytes()).unwrap().kind
    };
    assert_eq!(kind("MODE1"), TrackKind::Mode1);
    assert_eq!(kind("MODE2/2048"), TrackKind::Mode2Form1);
    assert_eq!(kind("MODE2_FORM1"), TrackKind::Mode2Form1);
    assert_eq!(kind("MODE2/2324"), TrackKind::Mode2Form2);
    assert_eq!(kind("MODE2_FORM2"), TrackKind::Mode2Form2);
    assert_eq!(kind("MODE2/2352"), TrackKind::Mode2Raw);
    assert_eq!(kind("MODE2_RAW"), TrackKind::Mode2Raw);
    assert_eq!(kind("CDI/2352"), TrackKind::Mode2Raw);
    assert_eq!(kind("AUDIO"), TrackKind::Audio);
    // unknown MODE2 flavours fall back by payload size
    assert_eq!(kind("MODE2X2048"), TrackKind::Mode2Form1);
    assert_eq!(kind("MODE2X2324"), TrackKind::Mode2Form2);
    assert_eq!(kind("MODE2/2336"), TrackKind::Audio);
    // anything else is audio
    assert_eq!(kind("KARAOKE"), TrackKind::Audio);
}

#[test]
fn parse_malformed_numbers_become_zero() {
    let t = parse_track_line(b"TRACK:2 TYPE:AUDIO FRAMES:abc PREGAP:-1 POSTGAP:99999999999999")
        .unwrap();
    assert_eq!(t.frames, 0);
    assert_eq!(t.pregap, 0);
    assert_eq!(t.postgap, 0);
    // a malformed track number also becomes 0; the record survives
    let t2 = parse_track_line(b"TRACK:x TYPE:AUDIO").unwrap();
    assert_eq!(t2.number, 0);
    assert_eq!(t2.kind, TrackKind::Audio);
}

#[test]
fn parse_separators_and_plus_sign() {
    let t = parse_track_line(b"TRACK:+3,TYPE:MODE1\tFRAMES:+7\nPREGAP:2").unwrap();
    assert_eq!(t.number, 3);
    assert_eq!(t.frames, 7);
    assert_eq!(t.pregap, 2);
}

#[test]
fn toc_walk_finds_first_data_track() {
    // audio 150 frames with 150 pregap, then the data track after another
    // 150 pregap: absolute LBA 450
    let tracks = vec![
        track(1, TrackKind::Audio, 150, 150, 0),
        track(2, TrackKind::Mode1, 1000, 150, 0),
    ];
    match classify_toc(&tracks, false) {
        TocOutcome::Located { first_data_lba, payload, track_frames } => {
            assert_eq!(first_data_lba, 450);
            assert_eq!(payload, CdPayloadKind::Mode1_2048);
            assert_eq!(track_frames, 1000);
        }
        _ => panic!("expected a data track"),
    }
}

#[test]
fn toc_walk_sorts_by_track_number() {
    let tracks = vec![
        track(2, TrackKind::Mode1, 500, 0, 0),
        track(1, TrackKind::Audio, 100, 0, 0),
    ];
    match classify_toc(&tracks, false) {
        TocOutcome::Located { first_data_lba, track_frames, .. } => {
            assert_eq!(first_data_lba, 100);
            assert_eq!(track_frames, 500);
        }
        _ => panic!("expected a data track"),
    }
}

#[test]
fn toc_walk_hides_form2_without_opt_in() {
    let tracks = vec![track(1, TrackKind::Mode2Form2, 5, 0, 0)];
    assert!(matches!(classify_toc(&tracks, false), TocOutcome::Hidden));
    match classify_toc(&tracks, true) {
        TocOutcome::Located { first_data_lba, payload, track_frames } => {
            assert_eq!(first_data_lba, 0);
            assert_eq!(payload, CdPayloadKind::Mode2Form2_2324);
            assert_eq!(track_frames, 5);
        }
        _ => panic!("expected a data track"),
    }
}

#[test]
fn toc_walk_skips_audio_and_raw_only() {
    let tracks = vec![
        track(1, TrackKind::Audio, 100, 0, 0),
        track(2, TrackKind::Mode2Raw, 200, 0, 0),
    ];
    assert!(matches!(classify_toc(&tracks, true), TocOutcome::NoData));
    assert!(matches!(classify_toc(&Vec::new(), true), TocOutcome::NoData));
}
