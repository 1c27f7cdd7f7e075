//! Random-access byte views over an archive's hunk stream: the direct
//! passthrough view for 2048-byte-unit images and the user-payload view
//! for 2352-byte CD frames, the latter through the shared frame cache.

use vstd::prelude::*;
use crate::cache::FrameCache;
use crate::cache::key_index;
use crate::cache::lemma_key_index;
use crate::chdio::chd_hunk_of;
use crate::chdio::chd_read_hunk;
use crate::classify::frame_bytes_of;
use crate::geometry::CdPayloadKind;
use crate::geometry::payload_offset;
use crate::geometry::payload_offset_spec;
use crate::geometry::user_bytes;
use crate::geometry::user_bytes_spec;
use crate::chdio::chd_header_of;
use crate::chdio::chd_hunk_ok;
use vstd::arithmetic::div_mod::lemma_div_is_ordered;
use vstd::arithmetic::div_mod::lemma_fundamental_div_mod;
use vstd::arithmetic::div_mod::lemma_fundamental_div_mod_converse;
use vstd::slice::slice_to_vec;

verus! {

/// Every cached frame of entry `file_id` holds exactly the bytes of its
/// frame in this archive.
pub open spec fn cache_coherent(
    entries: Seq<((u64, u64), Seq<u8>)>,
    file_id: u64,
    archive: Seq<u8>,
    hunk_size: u32,
) -> bool {
    forall|i: int|
        0 <= i < entries.len() && (#[trigger] entries[i]).0.0 == file_id ==> entries[i].1
            == frame_bytes_of(archive, hunk_size, entries[i].0.1 as int)
}

/// Each entry of `now` was already in `before`, or is a correct frame of
/// entry `file_id`.
pub open spec fn cache_grown(
    before: Seq<((u64, u64), Seq<u8>)>,
    now: Seq<((u64, u64), Seq<u8>)>,
    file_id: u64,
    archive: Seq<u8>,
    hunk_size: u32,
) -> bool {
    forall|i: int|
        0 <= i < now.len() ==> before.contains(#[trigger] now[i]) || (now[i].0.0 == file_id
            && now[i].1 == frame_bytes_of(archive, hunk_size, now[i].0.1 as int))
}

/// Fetch the 2352 bytes of frame `frame_index`, through the cache; on a
/// miss the containing hunk is decompressed and the frame is inserted.
pub fn get_cd_frame(
    cache: &mut FrameCache,
    file_id: u64,
    archive: &Vec<u8>,
    hunk_size: u32,
    frame_index: u64,
) -> (r: Option<Vec<u8>>)
    requires
        old(cache).wf(),
        cache_coherent(old(cache).entries(), file_id, archive@, hunk_size),
        hunk_size >= 2352,
    ensures
        final(cache).wf(),
        final(cache).count_cap() == old(cache).count_cap(),
        final(cache).byte_cap() == old(cache).byte_cap(),
        cache_grown(old(cache).entries(), final(cache).entries(), file_id, archive@, hunk_size),
        (r matches Some(v) ==> v@ == frame_bytes_of(archive@, hunk_size, frame_index as int)
            && v@.len() == 2352),
        (chd_header_of(archive@) matches Some(h) && h.hunk_size == hunk_size && frame_index as int
            / (hunk_size as int / 2352) <= u32::MAX && chd_hunk_ok(
            archive@,
            frame_index as int / (hunk_size as int / 2352),
        ) ==> r is Some),
{
    let key = (file_id, frame_index);
    let ghost es = old(cache).entries();
    proof {
        lemma_key_index(es, key);
    }
    let hit = cache.lookup(key);
    proof {
        let i = key_index(es, key);
        if i >= 0 {
            let now = cache.entries();
            assert(now == seq![es[i]] + es.remove(i));
            assert forall|j: int| 0 <= j < now.len() implies es.contains(#[trigger] now[j]) by {
                if j == 0 {
                    assert(now[j] == es[i]);
                } else if j - 1 < i {
                    assert(now[j] == es[j - 1]);
                } else {
                    assert(now[j] == es[j]);
                }
            }
        }
    }
    match hit {
        Some(v) => {
            proof {
                let i = key_index(es, key);
                assert(es[i].0 == key);
                assert(es[i].0.0 == file_id);
                assert(v@ == frame_bytes_of(archive@, hunk_size, frame_index as int));
            }
            Some(v)
        },
        None => {
            let fph: u32 = hunk_size / 2352;
            let hunk_index: u64 = frame_index / fph as u64;
            proof {
                assert(hunk_index as int == frame_index as int / (hunk_size as int / 2352));
            }
            if hunk_index > u32::MAX as u64 {
                return None;
            }
            let hunk = match chd_read_hunk(archive, hunk_index as u32) {
                Some(h) => h,
                None => return None,
            };
            if hunk.len() != hunk_size as usize {
                // the archive does not match its own header; under a
                // matching header the decoded length equals the hunk
                // size, so this branch is a read failure
                proof {
                    match chd_header_of(archive@) {
                        Some(h2) => {
                            if h2.hunk_size == hunk_size {
                                assert(hunk@.len() == h2.hunk_size);
                                assert(false);
                            }
                        },
                        None => {},
                    }
                }
                return None;
            }
            let frame_in_hunk: u64 = frame_index % fph as u64;
            let base: usize = (frame_in_hunk as usize) * 2352;
            proof {
                lemma_fundamental_div_mod(frame_index as int, fph as int);
                lemma_fundamental_div_mod(hunk_size as int, 2352);
                assert(frame_in_hunk < fph);
                assert((frame_in_hunk + 1) * 2352 <= fph * 2352) by (nonlinear_arith)
                    requires
                        frame_in_hunk < fph,
                ;
            }
            let frame_slice: &[u8] = &hunk.as_slice()[base..base + 2352];
            let frame = slice_to_vec(frame_slice);
            proof {
                let fphi = hunk_size as int / 2352;
                assert(frame_index as int / fphi == hunk_index as int);
                assert(frame_index as int % fphi == frame_in_hunk as int);
                assert(frame@ =~= frame_bytes_of(archive@, hunk_size, frame_index as int));
            }
            let out = frame.clone();
            proof {
                assert(out@ == frame@);
            }
            cache.insert(key, frame);
            Some(out)
        },
    }
}

/// One byte of the user-payload view: byte `i` comes from frame
/// `start_frame + i / user_bytes`, at `payload_offset + i % user_bytes`.
pub open spec fn frame_user_byte(
    archive: Seq<u8>,
    hunk_size: u32,
    start_frame: u64,
    pk: CdPayloadKind,
    i: int,
) -> u8 {
    let ub = user_bytes_spec(pk) as int;
    let po = payload_offset_spec(pk) as int;
    frame_bytes_of(archive, hunk_size, start_frame + i / ub)[po + i % ub]
}

/// The bytes a CD read request yields: empty past `max_len` or for a zero
/// size, else the user-payload bytes of `[offset, min(offset + size,
/// max_len))`.
pub open spec fn cd_read_view(
    archive: Seq<u8>,
    hunk_size: u32,
    start_frame: u64,
    pk: CdPayloadKind,
    max_len: u64,
    offset: u64,
    size: u32,
) -> Seq<u8> {
    if offset >= max_len || size == 0 {
        Seq::<u8>::empty()
    } else {
        let want = if size as int <= max_len - offset {
            size as int
        } else {
            max_len - offset
        };
        Seq::new(want as nat, |j: int| frame_user_byte(archive, hunk_size, start_frame, pk, offset + j))
    }
}

/// The inputs on which a CD range read is owed success: the header
/// matches the hunk size handed in, and every frame the clamped range
/// covers lies in a decodable hunk whose index the codec accepts.
pub open spec fn cd_read_ok(
    archive: Seq<u8>,
    hunk_size: u32,
    start_frame: u64,
    pk: CdPayloadKind,
    max_len: u64,
    offset: u64,
    size: u32,
) -> bool {
    let ub = user_bytes_spec(pk) as int;
    let end = if offset + size <= max_len {
        offset + size
    } else {
        max_len as int
    };
    &&& chd_header_of(archive) matches Some(h) && h.hunk_size == hunk_size
    &&& forall|s: int|
        offset as int / ub <= s <= (end - 1) / ub ==> start_frame + s <= u64::MAX && (
        start_frame + s) / (hunk_size as int / 2352) <= u32::MAX && #[trigger] chd_hunk_ok(
            archive,
            (start_frame + s) / (hunk_size as int / 2352),
        )
}

/// Read `size` bytes at `offset` of the user-payload view that starts at
/// `start_frame`, clamped to `max_len`; frames come through the cache.
pub fn read_cd_range(
    cache: &mut FrameCache,
    file_id: u64,
    archive: &Vec<u8>,
    hunk_size: u32,
    start_frame: u64,
    pk: CdPayloadKind,
    offset: u64,
    size: u32,
    max_len: u64,
) -> (r: Option<Vec<u8>>)
    requires
        old(cache).wf(),
        cache_coherent(old(cache).entries(), file_id, archive@, hunk_size),
        hunk_size >= 2352,
    ensures
        final(cache).wf(),
        final(cache).count_cap() == old(cache).count_cap(),
        final(cache).byte_cap() == old(cache).byte_cap(),
        cache_grown(old(cache).entries(), final(cache).entries(), file_id, archive@, hunk_size),
        (r matches Some(v) ==> v@ == cd_read_view(
            archive@,
            hunk_size,
            start_frame,
            pk,
            max_len,
            offset,
            size,
        )),
        (offset >= max_len || size == 0 ==> (r matches Some(v) && v@.len() == 0) && *final(cache)
            == *old(cache)),
        (offset < max_len && size > 0 && cd_read_ok(
            archive@,
            hunk_size,
            start_frame,
            pk,
            max_len,
            offset,
            size,
        ) ==> r is Some),
{
    let mut out: Vec<u8> = Vec::new();
    if offset >= max_len || size == 0 {
        return Some(out);
    }
    let avail_total: u64 = max_len - offset;
    let want: u64 = if (size as u64) < avail_total {
        size as u64
    } else {
        avail_total
    };
    let ub: u64 = user_bytes(pk);
    let po: u64 = payload_offset(pk);
    let mut done: u64 = 0;
    let mut sector: u64 = offset / ub;
    let mut inner: u64 = offset % ub;
    proof {
        lemma_fundamental_div_mod(offset as int, ub as int);
    }
    while done < want
        invariant
            old(cache).wf(),
            cache.wf(),
            cache.count_cap() == old(cache).count_cap(),
            cache.byte_cap() == old(cache).byte_cap(),
            cache_coherent(old(cache).entries(), file_id, archive@, hunk_size),
            cache_coherent(cache.entries(), file_id, archive@, hunk_size),
            cache_grown(old(cache).entries(), cache.entries(), file_id, archive@, hunk_size),
            hunk_size >= 2352,
            ub == user_bytes_spec(pk),
            po == payload_offset_spec(pk),
            0 < ub,
            po + ub <= 2352,
            0 <= done <= want,
            offset < max_len,
            want <= max_len - offset,
            want == (if size as int <= max_len - offset {
                size as int
            } else {
                max_len - offset
            }),
            out@.len() == done,
            sector * ub + inner == offset + done,
            inner < ub,
            forall|j: int|
                0 <= j < done ==> out@[j] == frame_user_byte(
                    archive@,
                    hunk_size,
                    start_frame,
                    pk,
                    offset + j,
                ),
        decreases want - done,
    {
        proof {
            // when every covered frame is decodable, this iteration's
            // sector is one of them
            if cd_read_ok(archive@, hunk_size, start_frame, pk, max_len, offset, size) {
                let ubi = ub as int;
                lemma_fundamental_div_mod_converse(
                    (offset + done) as int,
                    ubi,
                    sector as int,
                    inner as int,
                );
                lemma_div_is_ordered(offset as int, (offset + done) as int, ubi);
                let end = if offset + size <= max_len {
                    offset + size
                } else {
                    max_len as int
                };
                assert(offset + want == end);
                lemma_div_is_ordered((offset + done) as int, end - 1, ubi);
                assert(offset as int / ubi <= sector <= (end - 1) / ubi);
                assert(chd_hunk_ok(
                    archive@,
                    (start_frame + sector as int) / (hunk_size as int / 2352),
                ));
            }
        }
        let fi128: u128 = start_frame as u128 + sector as u128;
        if fi128 > u64::MAX as u128 {
            proof {
                if cd_read_ok(archive@, hunk_size, start_frame, pk, max_len, offset, size) {
                    assert(start_frame + sector <= u64::MAX);
                }
            }
            return None;
        }
        let fi: u64 = fi128 as u64;
        let ghost before_entries = cache.entries();
        let frame = match get_cd_frame(cache, file_id, archive, hunk_size, fi) {
            Some(f) => f,
            None => {
                proof {
                    if cd_read_ok(archive@, hunk_size, start_frame, pk, max_len, offset, size) {
                        assert(chd_hunk_ok(
                            archive@,
                            fi as int / (hunk_size as int / 2352),
                        ));
                        assert(false);
                    }
                }
                return None;
            },
        };
        proof {
            assert forall|i: int|
                0 <= i < cache.entries().len() implies old(cache).entries().contains(
                #[trigger] cache.entries()[i]) || (cache.entries()[i].0.0 == file_id
                && cache.entries()[i].1 == frame_bytes_of(
                archive@,
                hunk_size,
                cache.entries()[i].0.1 as int,
            )) by {
                if before_entries.contains(cache.entries()[i]) {
                    let k = choose|k: int|
                        0 <= k < before_entries.len() && before_entries[k] == cache.entries()[i];
                }
            }
        }
        let avail: u64 = ub - inner;
        let left: u64 = want - done;
        let take: u64 = if avail < left {
            avail
        } else {
            left
        };
        let mut j: u64 = 0;
        while j < take
            invariant
                0 <= j <= take,
                take <= ub - inner,
                inner < ub,
                po + ub <= 2352,
                frame@.len() == 2352,
                frame@ == frame_bytes_of(archive@, hunk_size, fi as int),
                fi == start_frame + sector,
                ub == user_bytes_spec(pk),
                po == payload_offset_spec(pk),
                sector * ub + inner == offset + done,
                done + take <= want <= u64::MAX,
                out@.len() == done + j,
                forall|q: int|
                    0 <= q < done + j ==> out@[q] == frame_user_byte(
                        archive@,
                        hunk_size,
                        start_frame,
                        pk,
                        offset + q,
                    ),
            decreases take - j,
        {
            let idx: usize = (po + inner + j) as usize;
            let b = frame[idx];
            out.push(b);
            proof {
                let q = done + j;
                lemma_fundamental_div_mod_converse(
                    (offset + q) as int,
                    ub as int,
                    sector as int,
                    (inner + j) as int,
                );
                assert(frame_user_byte(archive@, hunk_size, start_frame, pk, offset + q)
                    == frame_bytes_of(archive@, hunk_size, start_frame + sector)[po + inner + j]);
                assert(out@[q as int] == b);
            }
            j += 1;
        }
        done = done + take;
        if take == avail {
            sector = sector + 1;
            inner = 0;
            proof {
                assert(sector * ub == (sector - 1) * ub + ub) by (nonlinear_arith);
            }
        } else {
            inner = inner + take;
        }
    }
    proof {
        let view = cd_read_view(archive@, hunk_size, start_frame, pk, max_len, offset, size);
        assert(view.len() == want);
        assert(out@ =~= view);
    }
    Some(out)
}

/// One byte of the passthrough view: byte `pos` comes from hunk
/// `pos / hunk_size` at offset `pos % hunk_size`.
pub open spec fn dvd_byte(archive: Seq<u8>, hunk_size: u32, pos: int) -> u8 {
    chd_hunk_of(archive, pos / hunk_size as int)[pos % hunk_size as int]
}

/// The bytes a passthrough read request yields: empty past `iso_size` or
/// for a zero size, else the bytes of `[offset, min(offset + size,
/// iso_size))` of the hunk stream.
pub open spec fn dvd_read_view(
    archive: Seq<u8>,
    hunk_size: u32,
    iso_size: u64,
    offset: u64,
    size: u32,
) -> Seq<u8> {
    if offset >= iso_size || size == 0 {
        Seq::<u8>::empty()
    } else {
        let want = if size as int <= iso_size - offset {
            size as int
        } else {
            iso_size - offset
        };
        Seq::new(want as nat, |j: int| dvd_byte(archive, hunk_size, offset + j))
    }
}

/// The inputs on which a passthrough read is owed success: the header
/// matches the hunk size handed in, and every byte position the clamped
/// range covers lies in a decodable hunk whose index the codec accepts.
pub open spec fn dvd_read_ok(
    archive: Seq<u8>,
    hunk_size: u32,
    iso_size: u64,
    offset: u64,
    size: u32,
) -> bool {
    let end = if offset + size <= iso_size {
        offset + size
    } else {
        iso_size as int
    };
    &&& chd_header_of(archive) matches Some(h) && h.hunk_size == hunk_size
    &&& forall|p: int|
        offset <= p < end ==> p / (hunk_size as int) <= u32::MAX && #[trigger] chd_hunk_ok(
            archive,
            p / (hunk_size as int),
        )
}

/// Read `size` bytes at `offset` of the decompressed hunk stream, clamped
/// to `iso_size`. No caching: each covered hunk is decompressed afresh.
pub fn read_dvd_range(
    archive: &Vec<u8>,
    hunk_size: u32,
    iso_size: u64,
    offset: u64,
    size: u32,
) -> (r: Option<Vec<u8>>)
    requires
        hunk_size >= 1,
    ensures
        (r matches Some(v) ==> v@ == dvd_read_view(archive@, hunk_size, iso_size, offset, size)),
        (offset >= iso_size || size == 0 ==> (r matches Some(v) && v@.len() == 0)),
        (dvd_read_ok(archive@, hunk_size, iso_size, offset, size) ==> r is Some),
{
    let mut out: Vec<u8> = Vec::new();
    if offset >= iso_size || size == 0 {
        return Some(out);
    }
    let avail_total: u64 = iso_size - offset;
    let want: u64 = if (size as u64) < avail_total {
        size as u64
    } else {
        avail_total
    };
    let mut done: u64 = 0;
    while done < want
        invariant
            hunk_size >= 1,
            0 <= done <= want,
            offset < iso_size,
            want <= iso_size - offset,
            want == (if size as int <= iso_size - offset {
                size as int
            } else {
                iso_size - offset
            }),
            out@.len() == done,
            forall|j: int|
                0 <= j < done ==> out@[j] == dvd_byte(archive@, hunk_size, offset + j),
        decreases want - done,
    {
        let pos: u64 = offset + done;
        let hunk_index: u64 = pos / hunk_size as u64;
        proof {
            // when every covered position is decodable, this one is
            if dvd_read_ok(archive@, hunk_size, iso_size, offset, size) {
                let end = if offset + size <= iso_size {
                    offset + size
                } else {
                    iso_size as int
                };
                assert(offset + want == end);
                assert(offset <= pos < end);
                assert(chd_hunk_ok(archive@, pos as int / (hunk_size as int)));
            }
        }
        if hunk_index > u32::MAX as u64 {
            return None;
        }
        let in_off: u64 = pos % hunk_size as u64;
        proof {
            lemma_fundamental_div_mod(pos as int, hunk_size as int);
            assert(pos == (pos as int / hunk_size as int) * hunk_size + in_off);
            assert(hunk_index == pos as int / hunk_size as int);
            assert(pos == hunk_index * hunk_size + in_off);
        }
        let hunk = match chd_read_hunk(archive, hunk_index as u32) {
            Some(h) => h,
            None => return None,
        };
        if hunk.len() != hunk_size as usize {
            // the archive does not match its own header; under a matching
            // header the decoded length equals the hunk size
            proof {
                match chd_header_of(archive@) {
                    Some(h2) => {
                        if h2.hunk_size == hunk_size {
                            assert(hunk@.len() == h2.hunk_size);
                            assert(false);
                        }
                    },
                    None => {},
                }
            }
            return None;
        }
        let avail: u64 = hunk_size as u64 - in_off;
        let left: u64 = want - done;
        let take: u64 = if avail < left {
            avail
        } else {
            left
        };
        let mut j: u64 = 0;
        while j < take
            invariant
                hunk_size >= 1,
                0 <= j <= take,
                take <= hunk_size - in_off,
                in_off < hunk_size,
                hunk@.len() == hunk_size,
                hunk@ == chd_hunk_of(archive@, hunk_index as int),
                pos == offset + done,
                pos == hunk_index * hunk_size + in_off,
                done + take <= want <= u64::MAX,
                out@.len() == done + j,
                forall|q: int|
                    0 <= q < done + j ==> out@[q] == dvd_byte(archive@, hunk_size, offset + q),
            decreases take - j,
        {
            let idx: usize = (in_off + j) as usize;
            let b = hunk[idx];
            out.push(b);
            proof {
                let q = done + j;
                lemma_fundamental_div_mod_converse(
                    (offset + q) as int,
                    hunk_size as int,
                    hunk_index as int,
                    (in_off + j) as int,
                );
                assert(dvd_byte(archive@, hunk_size, offset + q) == chd_hunk_of(
                    archive@,
                    hunk_index as int,
                )[in_off + j]);
                assert(out@[q as int] == b);
            }
            j += 1;
        }
        done = done + take;
    }
    proof {
        let view = dvd_read_view(archive@, hunk_size, iso_size, offset, size);
        assert(view.len() == want);
        assert(out@ =~= view);
    }
    Some(out)
}

} // verus!
