//! Trusted boundary to the `chd` crate.
//!
//! An archive is held as its raw file bytes; every call into `chd` opens
//! those bytes afresh through an in-memory cursor. The header, the
//! decompressed content of a hunk and the metadata entries are each a pure
//! function of the archive bytes, so each is given a name that the
//! wrappers' contracts apply; nothing else is assumed of the crate.

use vstd::prelude::*;

verus! {

/// Header fields of a CHD archive, as plain integers.
#[derive(Clone, Copy, Debug, PartialEq, Eq, Structural)]
pub struct ChdHeaderInfo {
    /// Bytes per logical unit (2048 for DVD-style, 2352 for CD-style).
    pub unit_bytes: u32,
    /// Total decompressed payload size in bytes.
    pub logical_bytes: u64,
    /// Bytes per decompressed hunk.
    pub hunk_size: u32,
    /// Number of hunks in the archive.
    pub hunk_count: u32,
}

/// The header that `chd` reads from these archive bytes, when it accepts
/// them.
pub uninterp spec fn chd_header_of(archive: Seq<u8>) -> Option<ChdHeaderInfo>;

/// The decompressed content of hunk `index` of these archive bytes.
pub uninterp spec fn chd_hunk_of(archive: Seq<u8>, index: int) -> Seq<u8>;

/// The tagged metadata entries of these archive bytes, in chain order.
/// A chain is followed for at most 65536 entries, so a malformed cyclic
/// chain reads as a truncated one.
pub uninterp spec fn chd_metadata_of(archive: Seq<u8>) -> Seq<(u32, Seq<u8>)>;

/// Whether `chd` accepts these bytes as an archive: the header and the
/// hunk map parse. A function of the bytes alone.
pub uninterp spec fn chd_header_ok(archive: Seq<u8>) -> bool;

/// Whether hunk `index` of these bytes decompresses. A function of the
/// bytes alone.
pub uninterp spec fn chd_hunk_ok(archive: Seq<u8>, index: int) -> bool;

/// Whether every metadata entry of these bytes reads. A function of the
/// bytes alone.
pub uninterp spec fn chd_metadata_ok(archive: Seq<u8>) -> bool;

/// Relies on `chd::Chd::open` and the `chd::Header` accessors: the header
/// is parsed from the archive bytes alone, and whether the parse succeeds
/// is decided by the bytes alone.
///
/// Caveat: on a crafted v1/v2 header, `chd`'s own geometry arithmetic
/// (`read_v1_header`) can overflow `u64`, which panics in builds with
/// overflow checks; the crate offers no way to guard that from outside.
#[verifier::external_body]
pub(crate) fn chd_read_header(archive: &Vec<u8>) -> (r: Option<ChdHeaderInfo>)
    ensures
        r is Some <==> chd_header_ok(archive@),
        (r matches Some(h) ==> chd_header_of(archive@) == Some(h)),
{
    let c = match chd::Chd::open(std::io::Cursor::new(archive.clone()), None) {
        Ok(c) => c,
        Err(_) => return None,
    };
    let h = c.header();
    Some(ChdHeaderInfo {
        unit_bytes: h.unit_bytes(),
        logical_bytes: h.logical_bytes(),
        hunk_size: h.hunk_size(),
        hunk_count: h.hunk_count(),
    })
}

/// Relies on `chd::Chd::hunk` and `chd::Hunk::read_hunk_in`: decompressing
/// a hunk is a function of the archive bytes alone, succeeds or fails by
/// the bytes alone, and on success fills a buffer of exactly the header's
/// hunk size.
///
/// Caveat: `chd`'s CD codecs (`compression/cdrom.rs`) index the compressed
/// block without bounds checks, so a crafted archive that names a CD codec
/// and stores a block shorter than its own header makes this call panic
/// inside `chd`. That input cannot be told apart from a valid one without
/// re-parsing the hunk map, and the crate catches nothing itself, so the
/// panic cannot be excluded by a precondition nor contained here.
#[verifier::external_body]
pub(crate) fn chd_read_hunk(archive: &Vec<u8>, index: u32) -> (r: Option<Vec<u8>>)
    ensures
        r is Some <==> chd_hunk_ok(archive@, index as int),
        (r matches Some(v) ==> v@ == chd_hunk_of(archive@, index as int)),
        (r matches Some(v) ==> chd_header_of(archive@) matches Some(h) && v@.len()
            == h.hunk_size),
{
    let mut c = match chd::Chd::open(std::io::Cursor::new(archive.clone()), None) {
        Ok(c) => c,
        Err(_) => return None,
    };
    let mut out = c.get_hunksized_buffer();
    let mut cmp: Vec<u8> = Vec::new();
    let mut h = match c.hunk(index) {
        Ok(h) => h,
        Err(_) => return None,
    };
    match h.read_hunk_in(&mut cmp, &mut out) {
        Ok(_) => Some(out),
        Err(_) => None,
    }
}

/// Relies on `chd::Chd::metadata_refs` and `chd::MetadataRef::read`: the
/// metadata entries and their order are a function of the archive bytes
/// alone, and so is whether every entry reads. The chain is followed for
/// at most 65536 entries: `chd` itself follows each entry's `next` offset
/// with no cycle detection, so an uncapped walk of a crafted
/// self-referencing chain would never return.
#[verifier::external_body]
pub(crate) fn chd_read_metadata(archive: &Vec<u8>) -> (r: Option<Vec<(u32, Vec<u8>)>>)
    ensures
        r is Some <==> chd_metadata_ok(archive@),
        (r matches Some(v) ==> v@.map_values(|p: (u32, Vec<u8>)| (p.0, p.1@))
            == chd_metadata_of(archive@)),
{
    let mut c = match chd::Chd::open(std::io::Cursor::new(archive.clone()), None) {
        Ok(c) => c,
        Err(_) => return None,
    };
    let refs: Vec<chd::metadata::MetadataRef> = c.metadata_refs().take(65536).collect();
    let mut file = std::io::Cursor::new(archive.clone());
    let mut out: Vec<(u32, Vec<u8>)> = Vec::new();
    for mref in refs {
        match mref.read(&mut file) {
            Ok(md) => out.push((md.metatag, md.value)),
            Err(_) => return None,
        }
    }
    Some(out)
}

} // verus!
