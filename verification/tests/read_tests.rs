//! End-to-end tests through real CHD archives: classification, the
//! filesystem core, the read paths and the frame cache. The helper below
//! writes a CHD v5 file with uncompressed hunks, which the `chd` crate
//! then decodes.

use chd2iso::cache::FrameCache;
use chd2iso::classify::{classify_archive, Classified, CHT2_TAG};
use chd2iso::fscore::{FsCore, FsError};
use chd2iso::geometry::{BackingKind, CdPayloadKind};

/// Build a CHD v5 archive with uncompressed hunks holding `data`,
/// and the given metadata entries appended to the header.
fn build_chd(unit_bytes: u32, hunk_bytes: u32, data: &[u8], metadata: &[(u32, Vec<u8>)]) -> Vec<u8> {
    let logical = data.len() as u64;
    let hunk_count = ((logical + hunk_bytes as u64 - 1) / hunk_bytes as u64) as u32;
    let map_offset = 124u64;
    let map_size = hunk_count as u64 * 4;
    let meta_base = map_offset + map_size;
    let meta_offset = if metadata.is_empty() { 0 } else { meta_base };

    let mut meta_blob: Vec<u8> = Vec::new();
    let mut pos = meta_base;
    for (idx, (tag, value)) in metadata.iter().enumerate() {
        let next = if idx + 1 == metadata.len() {
            0u64
        } else {
            pos + 16 + value.len() as u64
        };
        meta_blob.extend_from_slice(&tag.to_be_bytes());
        meta_blob.extend_from_slice(&(value.len() as u32).to_be_bytes());
        meta_blob.extend_from_slice(&next.to_be_bytes());
        meta_blob.extend_from_slice(value);
        pos += 16 + value.len() as u64;
    }

    let data_start_raw = meta_base + meta_blob.len() as u64;
    let data_start = data_start_raw.div_ceil(hunk_bytes as u64) * hunk_bytes as u64;
    let first_unit = (data_start / hunk_bytes as u64) as u32;

    let mut out = vec![0u8; data_start as usize + hunk_count as usize * hunk_bytes as usize];
    out[0..8].copy_from_slice(b"MComprHD");
    out[8..12].copy_from_slice(&124u32.to_be_bytes());
    out[12..16].copy_from_slice(&5u32.to_be_bytes());
    // compression[0..4] stay 0: uncompressed
    out[32..40].copy_from_slice(&logical.to_be_bytes());
    out[40..48].copy_from_slice(&map_offset.to_be_bytes());
    out[48..56].copy_from_slice(&meta_offset.to_be_bytes());
    out[56..60].copy_from_slice(&hunk_bytes.to_be_bytes());
    out[60..64].copy_from_slice(&unit_bytes.to_be_bytes());
    for i in 0..hunk_count {
        let off = map_offset as usize + i as usize * 4;
        out[off..off + 4].copy_from_slice(&(first_unit + i).to_be_bytes());
    }
    let mb = meta_base as usize;
    out[mb..mb + meta_blob.len()].copy_from_slice(&meta_blob);
    let ds = data_start as usize;
    out[ds..ds + data.len()].copy_from_slice(data);
    out
}

/// Ten 2352-byte frames whose user payload region is one repeated byte,
/// with a Mode 1 marker in the mode byte.
fn mode1_frames(count: usize, fill: u8) -> Vec<u8> {
    let mut data = vec![0u8; count * 2352];
    for f in 0..count {
        let base = f * 2352;
        data[base + 0x0f] = 0x01;
        for i in 16..2064 {
            data[base + i] = fill;
        }
    }
    data
}

fn classify_entry(stem: &[u8], archive: Vec<u8>, allow_form2: bool) -> chd2iso::classify::EntryInit {
    match classify_archive(&stem.to_vec(), archive, allow_form2) {
        Classified::Entry(e) => e,
        Classified::Hidden => panic!("unexpectedly hidden"),
        Classified::Failed => panic!("unexpectedly failed"),
    }
}

fn core_with(entries: Vec<chd2iso::classify::EntryInit>) -> FsCore {
    FsCore::build(entries, 256, 256 * 1024 * 1024)
}

#[test]
fn dvd_passthrough_reads() {
    // 4096 logical bytes of a repeating 0x00..0xff pattern in one
    // 4096-byte hunk
    let data: Vec<u8> = (0..4096u32).map(|i| (i % 256) as u8).collect();
    let archive = build_chd(2048, 4096, &data, &[]);
    let e = classify_entry(b"game", archive, false);
    assert_eq!(e.name, b"game.iso".to_vec());
    assert!(matches!(e.kind, BackingKind::Dvd2048));
    assert_eq!(e.size, 4096);

    let mut fs = core_with(vec![e]);
    let fh = fs.open(2).expect("open");
    let first = fs.read(2, fh, 0, 16).expect("read");
    assert_eq!(
        first,
        vec![0x00, 0x01, 0x02, 0x03, 0x04, 0x05, 0x06, 0x07, 0x08, 0x09, 0x0a, 0x0b, 0x0c, 0x0d, 0x0e, 0x0f]
    );
    let tail = fs.read(2, fh, 4095, 2).expect("read");
    assert_eq!(tail, vec![data[4095]]);
}

#[test]
fn dvd_read_spans_hunks() {
    // 3 hunks of 2048; a read across the hunk boundary stitches them
    let data: Vec<u8> = (0..6144u32).map(|i| (i * 7 % 251) as u8).collect();
    let archive = build_chd(2048, 2048, &data, &[]);
    let e = classify_entry(b"disc", archive, false);
    let mut fs = core_with(vec![e]);
    let fh = fs.open(2).expect("open");
    let got = fs.read(2, fh, 2000, 200).expect("read");
    assert_eq!(got, data[2000..2200].to_vec());
}

#[test]
fn mode1_cd_reads() {
    let toc = (CHT2_TAG, b"TRACK:1 TYPE:MODE1 FRAMES:10 PREGAP:0 POSTGAP:0\0".to_vec());
    let archive = build_chd(2352, 2352, &mode1_frames(10, 0x41), &[toc]);
    let e = classify_entry(b"game", archive, false);
    assert_eq!(e.name, b"game.iso".to_vec());
    assert_eq!(e.size, 10 * 2048);
    match e.kind {
        BackingKind::Cd2352 { first_data_lba, payload_kind, track_frames } => {
            assert_eq!(first_data_lba, 0);
            assert_eq!(payload_kind, CdPayloadKind::Mode1_2048);
            assert_eq!(track_frames, Some(10));
        }
        _ => panic!("expected a CD backing"),
    }

    let mut fs = core_with(vec![e]);
    let fh = fs.open(2).expect("open");
    assert_eq!(fs.read(2, fh, 0, 1).expect("read"), b"A".to_vec());
    assert_eq!(fs.read(2, fh, 2047, 2).expect("read"), b"AA".to_vec());
    assert_eq!(fs.read(2, fh, 20479, 1).expect("read"), b"A".to_vec());
    assert_eq!(fs.read(2, fh, 20480, 1).expect("read"), Vec::<u8>::new());
}

#[test]
fn cd_toc_with_pregaps() {
    // only classification matters here: the file carries no real frames
    let t1 = (CHT2_TAG, b"TRACK:1 TYPE:AUDIO FRAMES:150 PREGAP:150 POSTGAP:0\0".to_vec());
    let t2 = (CHT2_TAG, b"TRACK:2 TYPE:MODE1 FRAMES:1000 PREGAP:150 POSTGAP:0\0".to_vec());
    let archive = build_chd(2352, 2352, &vec![0u8; 2352], &[t1, t2]);
    let e = classify_entry(b"mixed", archive, false);
    assert_eq!(e.size, 2_048_000);
    match e.kind {
        BackingKind::Cd2352 { first_data_lba, payload_kind, track_frames } => {
            assert_eq!(first_data_lba, 450);
            assert_eq!(payload_kind, CdPayloadKind::Mode1_2048);
            assert_eq!(track_frames, Some(1000));
        }
        _ => panic!("expected a CD backing"),
    }
}

#[test]
fn form2_hidden_without_opt_in() {
    let toc = (CHT2_TAG, b"TRACK:1 TYPE:MODE2_FORM2 FRAMES:5 PREGAP:0 POSTGAP:0\0".to_vec());
    let archive = build_chd(2352, 2352, &vec![0u8; 5 * 2352], &[toc]);
    let stem = b"secret".to_vec();
    assert!(matches!(classify_archive(&stem, archive, false), Classified::Hidden));

    // and the mount surface shows nothing but the two dot entries
    let fs = core_with(Vec::new());
    let items = fs.readdir(1, 0).expect("readdir");
    assert_eq!(items.len(), 2);
    assert_eq!(items[0].name, b".".to_vec());
    assert_eq!(items[1].name, b"..".to_vec());
}

#[test]
fn form2_visible_with_opt_in() {
    let toc = (CHT2_TAG, b"TRACK:1 TYPE:MODE2_FORM2 FRAMES:5 PREGAP:0 POSTGAP:0\0".to_vec());
    let mut data = vec![0u8; 5 * 2352];
    for f in 0..5 {
        data[f * 2352 + 24] = 0xb0 + f as u8;  // first user byte of each frame
    }
    let archive = build_chd(2352, 2352, &data, &[toc]);
    let e = classify_entry(b"game", archive, true);
    assert_eq!(e.name, b"game (Form2).bin".to_vec());
    assert_eq!(e.size, 5 * 2324);
    match e.kind {
        BackingKind::Cd2352 { payload_kind, .. } => {
            assert_eq!(payload_kind, CdPayloadKind::Mode2Form2_2324);
        }
        _ => panic!("expected a CD backing"),
    }
    let mut fs = core_with(vec![e]);
    let fh = fs.open(2).expect("open");
    // byte 0 of the exposed file is frame 0 at payload offset 24
    assert_eq!(fs.read(2, fh, 0, 1).expect("read"), vec![0xb0]);
    // byte 2324 is frame 1 at payload offset 24
    assert_eq!(fs.read(2, fh, 2324, 1).expect("read"), vec![0xb1]);
}

#[test]
fn quick_scan_finds_data_frame() {
    // no TOC metadata: the scan inspects mode bytes; frames 0 and 1 are
    // blank, frame 2 is Mode 1
    let mut data = vec![0u8; 6 * 2352];
    data[2 * 2352 + 0x0f] = 0x01;
    for i in 16..2064 {
        data[2 * 2352 + i] = 0x5a;
    }
    let archive = build_chd(2352, 2352, &data, &[]);
    let e = classify_entry(b"bare", archive, false);
    assert_eq!(e.name, b"bare.iso".to_vec());
    assert_eq!(e.size, (6 - 2) * 2048);
    match e.kind {
        BackingKind::Cd2352 { first_data_lba, payload_kind, track_frames } => {
            assert_eq!(first_data_lba, 2);
            assert_eq!(payload_kind, CdPayloadKind::Mode1_2048);
            assert_eq!(track_frames, None);
        }
        _ => panic!("expected a CD backing"),
    }
    // byte 0 of the exposed file is the first user byte of frame 2
    let mut fs = core_with(vec![e]);
    let fh = fs.open(2).expect("open");
    assert_eq!(fs.read(2, fh, 0, 4).expect("read"), vec![0x5a; 4]);
}

#[test]
fn quick_scan_mode2_respects_opt_in() {
    let mut data = vec![0u8; 2 * 2352];
    data[0x0f] = 0x02;
    let archive = build_chd(2352, 2352, &data, &[]);
    let e1 = classify_entry(b"x", archive.clone(), false);
    match e1.kind {
        BackingKind::Cd2352 { payload_kind, .. } => {
            assert_eq!(payload_kind, CdPayloadKind::Mode2Form1_2048);
        }
        _ => panic!("expected a CD backing"),
    }
    let e2 = classify_entry(b"x", archive, true);
    match e2.kind {
        BackingKind::Cd2352 { payload_kind, .. } => {
            assert_eq!(payload_kind, CdPayloadKind::Mode2Form2_2324);
        }
        _ => panic!("expected a CD backing"),
    }
    assert_eq!(e2.name, b"x (Form2).bin".to_vec());
}

#[test]
fn raw_units_pass_through() {
    let data = vec![0x77u8; 1024];
    let archive = build_chd(512, 1024, &data, &[]);
    let e = classify_entry(b"odd", archive, false);
    assert!(matches!(e.kind, BackingKind::Raw2048));
    assert_eq!(e.size, 1024);
    let mut fs = core_with(vec![e]);
    let fh = fs.open(2).expect("open");
    assert_eq!(fs.read(2, fh, 100, 4).expect("read"), vec![0x77; 4]);
}

#[test]
fn reads_are_idempotent() {
    let toc = (CHT2_TAG, b"TRACK:1 TYPE:MODE1 FRAMES:10 PREGAP:0 POSTGAP:0\0".to_vec());
    let archive = build_chd(2352, 4704, &mode1_frames(10, 0x33), &[toc]);
    let e = classify_entry(b"twice", archive, false);
    let mut fs = core_with(vec![e]);
    let fh = fs.open(2).expect("open");
    let a = fs.read(2, fh, 1000, 3000).expect("read");
    let b = fs.read(2, fh, 1000, 3000).expect("read");
    assert_eq!(a, b);
}

#[test]
fn reads_are_split_invariant() {
    let data: Vec<u8> = (0..8192u32).map(|i| (i % 241) as u8).collect();
    let archive = build_chd(2048, 2048, &data, &[]);
    let e = classify_entry(b"split", archive, false);
    let mut fs = core_with(vec![e]);
    let fh = fs.open(2).expect("open");
    let whole = fs.read(2, fh, 100, 5000).expect("read");
    for s in [0u32, 1, 2048, 4999, 5000] {
        let left = fs.read(2, fh, 100, s).expect("read");
        let right = fs.read(2, fh, 100 + s as i64, 5000 - s).expect("read");
        let mut joined = left;
        joined.extend_from_slice(&right);
        assert_eq!(joined, whole);
    }
}

#[test]
fn sequential_reads_match_full_read() {
    let toc = (CHT2_TAG, b"TRACK:1 TYPE:MODE1 FRAMES:8 PREGAP:0 POSTGAP:0\0".to_vec());
    let mut data = vec![0u8; 8 * 2352];
    for f in 0..8 {
        data[f * 2352 + 0x0f] = 0x01;
        for i in 16..2064 {
            data[f * 2352 + i] = (f as u8) ^ (i as u8);
        }
    }
    let archive = build_chd(2352, 4704, &data, &[toc]);
    let e = classify_entry(b"seq", archive, false);
    let mut fs = core_with(vec![e]);
    let fh1 = fs.open(2).expect("open");
    let fh2 = fs.open(2).expect("open");
    assert_ne!(fh1, fh2);
    let full = fs.read(2, fh1, 0, 8 * 2048).expect("read");
    assert_eq!(full.len(), 8 * 2048);
    // interleaved reads through two handles at distinct offsets
    let mut pieces: Vec<u8> = Vec::new();
    for chunk in 0i64..16 {
        let fh = if chunk % 2 == 0 { fh1 } else { fh2 };
        let part = fs.read(2, fh, chunk * 1024, 1024).expect("read");
        pieces.extend_from_slice(&part);
    }
    assert_eq!(pieces, full);
}

#[test]
fn empty_and_invalid_reads() {
    let data = vec![1u8; 2048];
    let archive = build_chd(2048, 2048, &data, &[]);
    let e = classify_entry(b"edge", archive, false);
    let mut fs = core_with(vec![e]);
    let fh = fs.open(2).expect("open");
    // past the end
    assert_eq!(fs.read(2, fh, 2048, 16).expect("read"), Vec::<u8>::new());
    assert_eq!(fs.read(2, fh, 99999, 1).expect("read"), Vec::<u8>::new());
    // zero size and negative offset
    assert_eq!(fs.read(2, fh, 0, 0).expect("read"), Vec::<u8>::new());
    assert_eq!(fs.read(2, fh, -5, 16).expect("read"), Vec::<u8>::new());
    // errors
    assert_eq!(fs.read(7, fh, 0, 16), Err(FsError::NoEnt));
    assert_eq!(fs.read(2, 999, 0, 16), Err(FsError::BadF));
    assert!(matches!(fs.readdir(2, 0), Err(FsError::NotDir)));
    // a released handle no longer reads
    fs.release(fh);
    assert_eq!(fs.read(2, fh, 0, 16), Err(FsError::BadF));
}

#[test]
fn index_sorted_case_insensitively_with_dense_inodes() {
    let mk = |stem: &[u8]| {
        let data = vec![9u8; 2048];
        classify_entry(stem, build_chd(2048, 2048, &data, &[]), false)
    };
    let fs = core_with(vec![mk(b"banana"), mk(b"Apple"), mk(b"cherry")]);
    assert_eq!(fs.entry_count(), 3);
    let items = fs.readdir(1, 0).expect("readdir");
    assert_eq!(items.len(), 5);
    assert_eq!(items[2].name, b"Apple.iso".to_vec());
    assert_eq!(items[3].name, b"banana.iso".to_vec());
    assert_eq!(items[4].name, b"cherry.iso".to_vec());
    assert_eq!(items[2].ino, 2);
    assert_eq!(items[3].ino, 3);
    assert_eq!(items[4].ino, 4);
    assert_eq!(items[2].offset, 3);
    assert_eq!(items[4].offset, 5);
    // resuming from an offset skips what was already delivered
    let rest = fs.readdir(1, 3).expect("readdir");
    assert_eq!(rest.len(), 2);
    assert_eq!(rest[0].name, b"banana.iso".to_vec());

    let a = fs.lookup(b"Apple.iso").expect("lookup");
    assert_eq!(a.ino, 2);
    assert_eq!(a.size, 2048);
    assert_eq!(a.blocks, 4);
    assert_eq!(a.perm_bits, 0o444);
    assert!(fs.lookup(b"apple.iso").is_none());

    let root = fs.getattr(1).expect("root");
    assert!(root.is_dir);
    assert_eq!(root.perm_bits, 0o755);
    assert_eq!(root.nlink, 2);
    let f = fs.getattr(3).expect("file");
    assert_eq!(f.size, 2048);
    assert!(!f.is_dir);
    assert!(fs.getattr(9).is_none());
}

#[test]
fn cache_stays_within_bounds() {
    let mut fc = FrameCache::new(2, 6000);
    for x in 0..5u8 {
        fc.insert((1, x as u64), vec![x; 2352]);
        assert!(fc.frame_count() <= 2);
        assert!(fc.bytes <= 6000 + 2352);
    }
    // the two most recent frames remain retrievable
    assert_eq!(fc.lookup((1, 4)), Some(vec![4u8; 2352]));
    assert_eq!(fc.lookup((1, 3)), Some(vec![3u8; 2352]));
    assert_eq!(fc.lookup((1, 0)), None);

    // a byte cap below one frame still admits the newest frame briefly,
    // then evicts down to the cap
    let mut tiny = FrameCache::new(8, 1000);
    tiny.insert((1, 1), vec![7u8; 2352]);
    assert!(tiny.bytes <= 1000 + 2352);
    assert!(tiny.frame_count() <= 8);
}

#[test]
fn cached_and_uncached_reads_agree() {
    let toc = (CHT2_TAG, b"TRACK:1 TYPE:MODE1 FRAMES:6 PREGAP:0 POSTGAP:0\0".to_vec());
    let mut data = vec![0u8; 6 * 2352];
    for f in 0..6 {
        data[f * 2352 + 0x0f] = 0x01;
        for i in 16..2064 {
            data[f * 2352 + i] = (f * 31 + i) as u8;
        }
    }
    let archive = build_chd(2352, 2352, &data, &[toc]);
    let expected: Vec<u8> = (0..6usize)
        .flat_map(|f| data[f * 2352 + 16..f * 2352 + 2064].to_vec())
        .collect();

    // a cache of one frame forces constant eviction; a large cache hits
    // constantly; both must return the same bytes
    let e1 = classify_entry(b"c", archive.clone(), false);
    let mut small = FsCore::build(vec![e1], 1, 3000);
    let e2 = classify_entry(b"c", archive, false);
    let mut large = FsCore::build(vec![e2], 64, 1 << 20);
    let fh1 = small.open(2).expect("open");
    let fh2 = large.open(2).expect("open");
    let a = small.read(2, fh1, 0, 6 * 2048).expect("read");
    let b = large.read(2, fh2, 0, 6 * 2048).expect("read");
    let c = large.read(2, fh2, 0, 6 * 2048).expect("read");
    assert_eq!(a, expected);
    assert_eq!(b, expected);
    assert_eq!(c, expected);
}

#[test]
fn garbage_bytes_fail_classification() {
    let stem = b"junk".to_vec();
    assert!(matches!(
        classify_archive(&stem, vec![0u8; 64], false),
        Classified::Failed
    ));
}

#[test]
fn unreadable_archive_reports_io() {
    // an entry whose backing bytes are not a CHD archive at all: the
    // header read fails and the read surfaces an I/O error
    let broken = chd2iso::classify::EntryInit {
        name: b"broken.iso".to_vec(),
        kind: BackingKind::Dvd2048,
        size: 2048,
        archive: vec![0u8; 16],
    };
    let mut fs = core_with(vec![broken]);
    let fh = fs.open(2).expect("open");
    assert_eq!(fs.read(2, fh, 0, 16), Err(FsError::Io));
    // the trivial cases are decided before the archive is touched
    assert_eq!(fs.read(2, fh, 2048, 16).expect("read"), Vec::<u8>::new());
    assert_eq!(fs.read(2, fh, 0, 0).expect("read"), Vec::<u8>::new());
}
