//! Properties of the read views, stated on their own: exactness of the
//! passthrough view, the payload-concatenation shape of the CD view,
//! determinism of reads, split-invariance, and the cache bounds.

use vstd::prelude::*;
use crate::cache::FrameCache;
use crate::cache::sum_len;
use crate::classify::frame_bytes_of;
use crate::fscore::EntryModel;
use crate::fscore::read_ok_view;
use crate::geometry::CdPayloadKind;
use crate::geometry::payload_offset_spec;
use crate::geometry::user_bytes_spec;
use crate::view::cd_read_view;
use crate::view::dvd_byte;
use crate::view::dvd_read_view;
use crate::view::frame_user_byte;
use crate::chdio::chd_hunk_of;
use vstd::arithmetic::div_mod::lemma_fundamental_div_mod;
use vstd::arithmetic::div_mod::lemma_fundamental_div_mod_converse;

verus! {

/// A read that stays inside the exposed size yields exactly the bytes
/// `[offset, offset + size)` of the decompressed hunk stream.
pub proof fn lemma_dvd_read_exact(
    archive: Seq<u8>,
    hunk_size: u32,
    iso_size: u64,
    offset: u64,
    size: u32,
)
    requires
        offset + size <= iso_size,
    ensures
        dvd_read_view(archive, hunk_size, iso_size, offset, size) == Seq::new(
            size as nat,
            |j: int| dvd_byte(archive, hunk_size, offset + j),
        ),
{
    let v = dvd_read_view(archive, hunk_size, iso_size, offset, size);
    let w = Seq::new(size as nat, |j: int| dvd_byte(archive, hunk_size, offset + j));
    assert(v =~= w);
}

/// The user payload of one frame.
pub open spec fn payload_slice(archive: Seq<u8>, hunk_size: u32, frame: int, pk: CdPayloadKind) -> Seq<u8> {
    let ub = user_bytes_spec(pk) as int;
    let po = payload_offset_spec(pk) as int;
    frame_bytes_of(archive, hunk_size, frame).subrange(po, po + ub)
}

/// The concatenation of the user payloads of frames
/// `start_frame .. start_frame + n`.
pub open spec fn payload_concat(
    archive: Seq<u8>,
    hunk_size: u32,
    start_frame: u64,
    pk: CdPayloadKind,
    n: int,
) -> Seq<u8>
    decreases n,
{
    if n <= 0 {
        Seq::<u8>::empty()
    } else {
        payload_concat(archive, hunk_size, start_frame, pk, n - 1) + payload_slice(
            archive,
            hunk_size,
            start_frame + n - 1,
            pk,
        )
    }
}

/// The hunks covering frames `lo .. lo + n` all have the header's hunk
/// size, as they do whenever the archive's own hunk reads succeed.
pub open spec fn frames_in_bounds(archive: Seq<u8>, hunk_size: u32, lo: int, n: int) -> bool {
    &&& hunk_size >= 2352
    &&& forall|f: int|
        lo <= f < lo + n ==> #[trigger] chd_hunk_of(
            archive,
            f / (hunk_size as int / 2352),
        ).len() == hunk_size
}

/// Under those bounds a frame is a whole 2352-byte slice of its hunk.
proof fn lemma_frame_len(archive: Seq<u8>, hunk_size: u32, f: int)
    requires
        hunk_size >= 2352,
        f >= 0,
        chd_hunk_of(archive, f / (hunk_size as int / 2352)).len() == hunk_size,
    ensures
        frame_bytes_of(archive, hunk_size, f).len() == 2352,
        forall|k: int|
            0 <= k < 2352 ==> #[trigger] frame_bytes_of(archive, hunk_size, f)[k]
                == chd_hunk_of(archive, f / (hunk_size as int / 2352))[(f % (hunk_size as int
                / 2352)) * 2352 + k],
{
    let fph = hunk_size as int / 2352;
    lemma_fundamental_div_mod(hunk_size as int, 2352);
    assert(fph >= 1);
    lemma_fundamental_div_mod(f, fph);
    let m = f % fph;
    assert(0 <= m < fph);
    assert((m + 1) * 2352 <= fph * 2352) by (nonlinear_arith)
        requires
            m < fph,
    ;
    let hunk = chd_hunk_of(archive, f / fph);
    assert(0 <= m * 2352 <= m * 2352 + 2352 <= hunk.len());
    assert(frame_bytes_of(archive, hunk_size, f) == hunk.subrange(m * 2352, m * 2352 + 2352));
}

proof fn lemma_payload_concat_shape(
    archive: Seq<u8>,
    hunk_size: u32,
    start_frame: u64,
    pk: CdPayloadKind,
    n: int,
)
    requires
        n >= 0,
        frames_in_bounds(archive, hunk_size, start_frame as int, n),
    ensures
        payload_concat(archive, hunk_size, start_frame, pk, n) == Seq::new(
            (n * user_bytes_spec(pk)) as nat,
            |i: int| frame_user_byte(archive, hunk_size, start_frame, pk, i),
        ),
    decreases n,
{
    let ub = user_bytes_spec(pk) as int;
    if n == 0 {
        assert(payload_concat(archive, hunk_size, start_frame, pk, 0) =~= Seq::new(
            0nat,
            |i: int| frame_user_byte(archive, hunk_size, start_frame, pk, i),
        ));
    } else {
        lemma_payload_concat_shape(archive, hunk_size, start_frame, pk, n - 1);
        let prev = Seq::new(
            ((n - 1) * ub) as nat,
            |i: int| frame_user_byte(archive, hunk_size, start_frame, pk, i),
        );
        let whole = Seq::new(
            (n * ub) as nat,
            |i: int| frame_user_byte(archive, hunk_size, start_frame, pk, i),
        );
        assert((n - 1) * ub >= 0) by (nonlinear_arith)
            requires
                n >= 1,
                ub > 0,
        ;
        assert(n * ub == (n - 1) * ub + ub) by (nonlinear_arith);
        assert forall|i: int| 0 <= i < whole.len() implies whole[i] == (prev + payload_slice(
            archive,
            hunk_size,
            start_frame + n - 1,
            pk,
        ))[i] by {
            let po = payload_offset_spec(pk) as int;
            if i < (n - 1) * ub {
            } else {
                let r = i - (n - 1) * ub;
                assert(0 <= r < ub);
                lemma_fundamental_div_mod_converse(i, ub, n - 1, r);
                assert(frame_user_byte(archive, hunk_size, start_frame, pk, i)
                    == frame_bytes_of(archive, hunk_size, start_frame + n - 1)[po + r]);
                let fb = frame_bytes_of(archive, hunk_size, start_frame + n - 1);
                lemma_frame_len(archive, hunk_size, start_frame + n - 1);
                assert(payload_slice(archive, hunk_size, start_frame + n - 1, pk) == fb.subrange(
                    po,
                    po + ub,
                ));
                assert(0 <= po && po + ub <= fb.len());
                assert(fb.subrange(po, po + ub)[r] == fb[po + r]);
            }
        }
        assert(whole =~= prev + payload_slice(archive, hunk_size, start_frame + n - 1, pk));
    }
}

/// Reading the whole exposed file of a CD entry yields exactly the
/// concatenation of the user payloads of frames
/// `start_frame .. start_frame + n`.
pub proof fn lemma_cd_full_read(
    archive: Seq<u8>,
    hunk_size: u32,
    start_frame: u64,
    pk: CdPayloadKind,
    n: u64,
    size: u32,
)
    requires
        n * user_bytes_spec(pk) <= size <= u32::MAX,
        frames_in_bounds(archive, hunk_size, start_frame as int, n as int),
    ensures
        cd_read_view(
            archive,
            hunk_size,
            start_frame,
            pk,
            (n * user_bytes_spec(pk)) as u64,
            0,
            size,
        ) == payload_concat(archive, hunk_size, start_frame, pk, n as int),
{
    let ub = user_bytes_spec(pk) as int;
    assert(n * ub >= 0) by (nonlinear_arith)
        requires
            n >= 0,
            ub > 0,
    ;
    lemma_payload_concat_shape(archive, hunk_size, start_frame, pk, n as int);
    let max_len = (n * user_bytes_spec(pk)) as u64;
    let v = cd_read_view(archive, hunk_size, start_frame, pk, max_len, 0, size);
    let w = Seq::new(
        (n as int * ub) as nat,
        |i: int| frame_user_byte(archive, hunk_size, start_frame, pk, i),
    );
    assert(v =~= w);
}

/// Reads are a function of the entry and the range alone: two reads of
/// the same range that both succeed return identical bytes.
pub proof fn lemma_reads_idempotent(
    e: EntryModel,
    offset: u64,
    size: u32,
    v1: Seq<u8>,
    v2: Seq<u8>,
)
    requires
        v1 == read_ok_view(e, offset, size),
        v2 == read_ok_view(e, offset, size),
    ensures
        v1 == v2,
{
}

/// Split-invariance of the CD view: reading `[offset, offset + size)` in
/// one piece equals reading `[offset, offset + mid)` and then
/// `[offset + mid, offset + size)`.
pub proof fn lemma_cd_read_split(
    archive: Seq<u8>,
    hunk_size: u32,
    start_frame: u64,
    pk: CdPayloadKind,
    max_len: u64,
    offset: u64,
    size: u32,
    mid: u32,
)
    requires
        mid <= size,
        offset + size <= u64::MAX,
    ensures
        cd_read_view(archive, hunk_size, start_frame, pk, max_len, offset, size) == cd_read_view(
            archive,
            hunk_size,
            start_frame,
            pk,
            max_len,
            offset,
            mid,
        ) + cd_read_view(
            archive,
            hunk_size,
            start_frame,
            pk,
            max_len,
            (offset + mid) as u64,
            (size - mid) as u32,
        ),
{
    let a = cd_read_view(archive, hunk_size, start_frame, pk, max_len, offset, size);
    let b = cd_read_view(archive, hunk_size, start_frame, pk, max_len, offset, mid);
    let c = cd_read_view(
        archive,
        hunk_size,
        start_frame,
        pk,
        max_len,
        (offset + mid) as u64,
        (size - mid) as u32,
    );
    assert(a =~= b + c);
}

/// Split-invariance of the passthrough view.
pub proof fn lemma_dvd_read_split(
    archive: Seq<u8>,
    hunk_size: u32,
    iso_size: u64,
    offset: u64,
    size: u32,
    mid: u32,
)
    requires
        mid <= size,
        offset + size <= u64::MAX,
    ensures
        dvd_read_view(archive, hunk_size, iso_size, offset, size) == dvd_read_view(
            archive,
            hunk_size,
            iso_size,
            offset,
            mid,
        ) + dvd_read_view(
            archive,
            hunk_size,
            iso_size,
            (offset + mid) as u64,
            (size - mid) as u32,
        ),
{
    let a = dvd_read_view(archive, hunk_size, iso_size, offset, size);
    let b = dvd_read_view(archive, hunk_size, iso_size, offset, mid);
    let c = dvd_read_view(
        archive,
        hunk_size,
        iso_size,
        (offset + mid) as u64,
        (size - mid) as u32,
    );
    assert(a =~= b + c);
}

/// The cache bounds: the tracked byte counter never exceeds the byte cap
/// by more than one frame, and the entry count never exceeds its cap.
pub proof fn lemma_cache_bounds(c: FrameCache)
    requires
        c.wf(),
    ensures
        c.tracked_bytes() == sum_len(c.entries()),
        c.tracked_bytes() <= c.byte_cap() + 2352,
        c.entries().len() <= c.count_cap(),
{
}

} // verus!
