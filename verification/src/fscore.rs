//! The read-only filesystem core: the immutable index, the open-handle
//! table, and the shared frame cache, with the lookup / getattr / readdir
//! / open / release / read operations that a virtual-filesystem bridge
//! drives.
//!
//! The root directory is inode 1; every entry is a regular file with a
//! dense inode starting at 2.

use vstd::prelude::*;
use std::collections::HashMap;
use crate::cache::FrameCache;
use crate::chdio::chd_header_of;
use crate::chdio::chd_header_ok;
use crate::chdio::chd_read_header;
use crate::classify::EntryInit;
use crate::geometry::BackingKind;
use crate::geometry::user_bytes;
use crate::geometry::user_bytes_spec;
use crate::index::IndexEntry;
use crate::index::build_index;
use crate::index::distinct_names;
use crate::index::name_le;
use crate::index::sort_entries_spec;
use crate::view::cache_coherent;
use crate::view::cache_grown;
use crate::view::cd_read_ok;
use crate::view::cd_read_view;
use crate::view::dvd_read_ok;
use crate::view::dvd_read_view;
use crate::view::read_cd_range;
use crate::view::read_dvd_range;
use vstd::arithmetic::div_mod::lemma_fundamental_div_mod_converse;

verus! {

broadcast use vstd::std_specs::hash::group_hash_axioms;

/// Error codes of the filesystem surface; the bridge maps each to its
/// errno.
#[derive(Clone, Copy, Debug, PartialEq, Eq, Structural)]
pub enum FsError {
    /// Unknown name or inode.
    NoEnt,
    /// An underlying read or decode failure.
    Io,
    /// Read on an unknown handle.
    BadF,
    /// Directory listing of something that is not the root directory.
    NotDir,
}

/// The ghost model of one index entry.
pub struct EntryModel {
    pub ino: u64,
    pub name: Seq<u8>,
    pub kind: BackingKind,
    pub size: u64,
    pub archive: Seq<u8>,
}

/// The attributes the core decides; times and ownership are the
/// bridge's business.
#[derive(Clone, Copy, Debug, PartialEq, Eq, Structural)]
pub struct AttrCore {
    pub ino: u64,
    pub size: u64,
    pub blocks: u64,
    pub perm_bits: u16,
    pub nlink: u32,
    pub is_dir: bool,
}

/// One row of a directory listing.
pub struct DirItem {
    pub ino: u64,
    pub offset: i64,
    pub is_dir: bool,
    pub name: Vec<u8>,
}

/// First index whose entry has this inode, or -1.
pub open spec fn find_by_ino(s: Seq<EntryModel>, ino: u64) -> int
    decreases s.len(),
{
    if s.len() == 0 {
        -1
    } else if s[0].ino == ino {
        0
    } else {
        let r = find_by_ino(s.drop_first(), ino);
        if r == -1 {
            -1
        } else {
            r + 1
        }
    }
}

/// First index whose entry has this name, or -1.
pub open spec fn find_by_name(s: Seq<EntryModel>, name: Seq<u8>) -> int
    decreases s.len(),
{
    if s.len() == 0 {
        -1
    } else if s[0].name == name {
        0
    } else {
        let r = find_by_name(s.drop_first(), name);
        if r == -1 {
            -1
        } else {
            r + 1
        }
    }
}

pub proof fn lemma_find_by_ino(s: Seq<EntryModel>, ino: u64)
    ensures
        find_by_ino(s, ino) == -1 ==> forall|i: int|
            0 <= i < s.len() ==> (#[trigger] s[i]).ino != ino,
        find_by_ino(s, ino) != -1 ==> 0 <= find_by_ino(s, ino) < s.len() && s[find_by_ino(
            s,
            ino,
        )].ino == ino && forall|i: int|
            0 <= i < find_by_ino(s, ino) ==> (#[trigger] s[i]).ino != ino,
    decreases s.len(),
{
    if s.len() == 0 {
    } else if s[0].ino == ino {
    } else {
        lemma_find_by_ino(s.drop_first(), ino);
        assert forall|i: int| 1 <= i < s.len() implies s[i] == s.drop_first()[i - 1] by {}
    }
}

pub proof fn lemma_find_by_name(s: Seq<EntryModel>, name: Seq<u8>)
    ensures
        find_by_name(s, name) == -1 ==> forall|i: int|
            0 <= i < s.len() ==> (#[trigger] s[i]).name != name,
        find_by_name(s, name) != -1 ==> 0 <= find_by_name(s, name) < s.len() && s[find_by_name(
            s,
            name,
        )].name == name && forall|i: int|
            0 <= i < find_by_name(s, name) ==> (#[trigger] s[i]).name != name,
    decreases s.len(),
{
    if s.len() == 0 {
    } else if s[0].name == name {
    } else {
        lemma_find_by_name(s.drop_first(), name);
        assert forall|i: int| 1 <= i < s.len() implies s[i] == s.drop_first()[i - 1] by {}
    }
}

/// The hunk size the archive's own header declares.
pub open spec fn entry_hunk_size(archive: Seq<u8>) -> u32 {
    match chd_header_of(archive) {
        Some(h) => h.hunk_size,
        None => 0u32,
    }
}

/// `ceil(size / 512)`, the 512-byte block count reported for a file.
pub open spec fn blocks_of(size: u64) -> int {
    (size + 511) / 512
}

/// Attributes of a regular file of this size.
pub open spec fn file_attr_model(ino: u64, size: u64) -> AttrCore {
    AttrCore {
        ino,
        size,
        blocks: blocks_of(size) as u64,
        perm_bits: 0o444 as u16,
        nlink: 1u32,
        is_dir: false,
    }
}

/// Attributes of the root directory.
pub open spec fn root_attr_model() -> AttrCore {
    AttrCore { ino: 1u64, size: 0u64, blocks: 1u64, perm_bits: 0o755 as u16, nlink: 2u32, is_dir: true }
}

/// The clamp applied to a CD read: the track length in user bytes when
/// the table of contents gave one, else the exposed size.
pub open spec fn cd_max_len(kind: BackingKind, size: u64) -> int {
    match kind {
        BackingKind::Cd2352 { payload_kind, track_frames: Some(fr), .. } => fr as int
            * user_bytes_spec(payload_kind),
        _ => size as int,
    }
}

/// What a successful read of this entry returns.
pub open spec fn read_ok_view(e: EntryModel, offset: u64, size: u32) -> Seq<u8> {
    match e.kind {
        BackingKind::Cd2352 { first_data_lba, payload_kind, track_frames } => cd_read_view(
            e.archive,
            entry_hunk_size(e.archive),
            first_data_lba,
            payload_kind,
            cd_max_len(e.kind, e.size) as u64,
            offset,
            size,
        ),
        _ => dvd_read_view(e.archive, entry_hunk_size(e.archive), e.size, offset, size),
    }
}

/// The inputs on which a read of this entry is owed success: the
/// archive's header parses, its hunk size carries whole frames of the
/// entry's unit, the clamp fits, and every covered hunk decodes.
pub open spec fn read_inputs_ok(e: EntryModel, offset: u64, size: u32) -> bool {
    &&& chd_header_ok(e.archive)
    &&& (chd_header_of(e.archive) matches Some(h) && (match e.kind {
        BackingKind::Cd2352 { first_data_lba, payload_kind, track_frames } => {
            &&& h.hunk_size >= 2352
            &&& cd_max_len(e.kind, e.size) <= u64::MAX
            &&& (offset < cd_max_len(e.kind, e.size) ==> cd_read_ok(
                e.archive,
                h.hunk_size,
                first_data_lba,
                payload_kind,
                cd_max_len(e.kind, e.size) as u64,
                offset,
                size,
            ))
        },
        _ => {
            &&& h.hunk_size >= 1
            &&& dvd_read_ok(e.archive, h.hunk_size, e.size, offset, size)
        },
    }))
}

/// The rows of a root-directory listing resumed at `offset`: the two
/// synthetic entries at offsets 1 and 2 when starting from the top, then
/// every index entry, the i-th at offset `3 + i`, those past the resume
/// point only.
pub open spec fn readdir_rows(iv: Seq<EntryModel>, offset: i64) -> Seq<(u64, i64, bool, Seq<u8>)> {
    let skip = if offset < 3 {
        0int
    } else {
        offset - 2
    };
    let dots: Seq<(u64, i64, bool, Seq<u8>)> = if offset == 0 {
        seq![
            (1u64, 1i64, true, seq![46u8]),
            (1u64, 2i64, true, seq![46u8, 46u8]),
        ]
    } else {
        Seq::empty()
    };
    let cnt = if skip <= iv.len() {
        iv.len() - skip
    } else {
        0int
    };
    dots + Seq::new(cnt as nat, |j: int| (iv[skip + j].ino, (3 + skip + j) as i64, false, iv[skip + j].name))
}

/// The filesystem core. All operations run against one value of this
/// type; the bridge serialises its callbacks.
pub struct FsCore {
    entries: Vec<IndexEntry>,
    handles: HashMap<u64, u64>,
    next_fh: u64,
    cache: FrameCache,
}

impl FsCore {
    /// The index, as ghost entry models.
    pub closed spec fn index_view(self) -> Seq<EntryModel> {
        self.entries@.map_values(
            |e: IndexEntry|
                EntryModel {
                    ino: e.ino,
                    name: e.name@,
                    kind: e.kind,
                    size: e.size,
                    archive: e.archive@,
                },
        )
    }

    /// The open handles: handle id to inode.
    pub closed spec fn handles_view(self) -> Map<u64, u64> {
        self.handles@
    }

    /// The next handle id to be issued.
    pub closed spec fn next_handle(self) -> u64 {
        self.next_fh
    }

    /// The frame cache's entry-count cap.
    pub closed spec fn cache_count_cap(self) -> nat {
        self.cache.count_cap()
    }

    /// The frame cache's byte soft cap.
    pub closed spec fn cache_byte_cap(self) -> int {
        self.cache.byte_cap()
    }

    #[verifier::type_invariant]
    spec fn inv(self) -> bool {
        &&& self.cache.wf()
        &&& self.entries@.len() + 3 <= i64::MAX
        &&& forall|i: int|
            0 <= i < self.entries@.len() ==> (#[trigger] self.entries@[i]).ino == i + 2
        &&& forall|i: int|
            0 <= i < self.entries@.len() ==> cache_coherent(
                self.cache.entries(),
                (#[trigger] self.entries@[i]).ino,
                self.entries@[i].archive@,
                entry_hunk_size(self.entries@[i].archive@),
            )
        &&& forall|k: u64| self.handles@.dom().contains(k) ==> k < self.next_fh
    }

    /// Build the core from classified entries: sort them, assign inodes,
    /// and start with an empty handle table and an empty cache. A count
    /// cap of 0 means 64.
    pub fn build(items: Vec<EntryInit>, cache_hunks: usize, cache_bytes: usize) -> (r: FsCore)
        requires
            items@.len() + 3 <= i64::MAX,
        ensures
            r.index_view().len() == items@.len(),
            forall|i: int|
                0 <= i < r.index_view().len() ==> {
                    let s = sort_entries_spec(items@);
                    &&& (#[trigger] r.index_view()[i]).ino == i + 2
                    &&& r.index_view()[i].name == s[i].name@
                    &&& r.index_view()[i].kind == s[i].kind
                    &&& r.index_view()[i].size == s[i].size
                    &&& r.index_view()[i].archive == s[i].archive@
                },
            forall|i: int, j: int|
                0 <= i < j < r.index_view().len() ==> name_le(
                    (#[trigger] r.index_view()[i]).name,
                    (#[trigger] r.index_view()[j]).name,
                ),
            distinct_names(items@) ==> forall|i: int, j: int|
                0 <= i < j < r.index_view().len() ==> (#[trigger] r.index_view()[i]).name != (
                #[trigger] r.index_view()[j]).name,
            r.handles_view() == Map::<u64, u64>::empty(),
            r.next_handle() == 1u64,
            r.cache_count_cap() == (if cache_hunks == 0 {
                64nat
            } else {
                cache_hunks as nat
            }),
            r.cache_byte_cap() == cache_bytes,
    {
        let entries = build_index(items);
        let cap: usize = if cache_hunks == 0 {
            64
        } else {
            cache_hunks
        };
        let cache = FrameCache::new(cap, cache_bytes);
        let handles: HashMap<u64, u64> = HashMap::new();
        let r = FsCore { entries, handles, next_fh: 1, cache };
        proof {
            assert(r.cache.entries().len() == 0);
        }
        r
    }

    /// Number of index entries.
    pub fn entry_count(&self) -> (r: usize)
        ensures
            r == self.index_view().len(),
    {
        self.entries.len()
    }

    /// Position of the entry with this inode, if any.
    fn find_pos_by_ino(&self, ino: u64) -> (r: Option<usize>)
        ensures
            match r {
                Some(i) => 0 <= i < self.index_view().len() && find_by_ino(self.index_view(), ino)
                    == i,
                None => find_by_ino(self.index_view(), ino) == -1,
            },
    {
        proof {
            lemma_find_by_ino(self.index_view(), ino);
        }
        let n = self.entries.len();
        let mut i: usize = 0;
        while i < n
            invariant
                0 <= i <= n == self.index_view().len(),
                forall|j: int| 0 <= j < i ==> (#[trigger] self.index_view()[j]).ino != ino,
            decreases n - i,
        {
            if self.entries[i].ino == ino {
                proof {
                    lemma_find_by_ino(self.index_view(), ino);
                    let f = find_by_ino(self.index_view(), ino);
                    assert(self.index_view()[i as int].ino == ino);
                    if f == -1 {
                        assert(self.index_view()[i as int].ino != ino);
                    }
                    if f < i {
                        assert(self.index_view()[f].ino != ino);
                    }
                    if f > i {
                        assert(self.index_view()[i as int].ino != ino);
                    }
                }
                return Some(i);
            }
            proof {
                assert(self.index_view()[i as int].ino == self.entries@[i as int].ino);
            }
            i += 1;
        }
        proof {
            lemma_find_by_ino(self.index_view(), ino);
            let f = find_by_ino(self.index_view(), ino);
            if f != -1 {
                assert(self.index_view()[f].ino != ino);
            }
        }
        None
    }

    /// Exact byte-for-byte name comparison.
    fn name_matches(a: &[u8], b: &Vec<u8>) -> (r: bool)
        ensures
            r == (a@ == b@),
    {
        if a.len() != b.len() {
            assert(a@.len() != b@.len());
            return false;
        }
        let n = a.len();
        let mut i: usize = 0;
        while i < n
            invariant
                0 <= i <= n,
                n == a@.len() == b@.len(),
                forall|j: int| 0 <= j < i ==> a@[j] == b@[j],
            decreases n - i,
        {
            if a[i] != b[i] {
                assert(a@[i as int] != b@[i as int]);
                return false;
            }
            i += 1;
        }
        assert(a@ =~= b@);
        true
    }

    /// 512-byte block count of a file of this size.
    fn blocks_for(size: u64) -> (r: u64)
        ensures
            r == blocks_of(size),
    {
        let q = size / 512;
        let rem = size % 512;
        proof {
            if rem == 0 {
                lemma_fundamental_div_mod_converse((size + 511) as int, 512, q as int, 511);
            } else {
                lemma_fundamental_div_mod_converse(
                    (size + 511) as int,
                    512,
                    q as int + 1,
                    rem as int - 1,
                );
            }
        }
        if rem == 0 {
            q
        } else {
            q + 1
        }
    }

    /// Resolve a name directly under the root; the entry's file
    /// attributes when it exists.
    pub fn lookup(&self, name: &[u8]) -> (r: Option<AttrCore>)
        ensures
            ({
                let f = find_by_name(self.index_view(), name@);
                match r {
                    Some(a) => f >= 0 && a == file_attr_model(
                        self.index_view()[f].ino,
                        self.index_view()[f].size,
                    ),
                    None => f == -1,
                }
            }),
    {
        proof {
            lemma_find_by_name(self.index_view(), name@);
        }
        let n = self.entries.len();
        let mut i: usize = 0;
        while i < n
            invariant
                0 <= i <= n == self.index_view().len(),
                forall|j: int| 0 <= j < i ==> (#[trigger] self.index_view()[j]).name != name@,
            decreases n - i,
        {
            proof {
                assert(self.index_view()[i as int].name == self.entries@[i as int].name@);
            }
            if Self::name_matches(name, &self.entries[i].name) {
                let e = &self.entries[i];
                proof {
                    lemma_find_by_name(self.index_view(), name@);
                    let f = find_by_name(self.index_view(), name@);
                    assert(self.index_view()[i as int].name == name@);
                    if f == -1 {
                        assert(self.index_view()[i as int].name != name@);
                    }
                    if f < i {
                        assert(self.index_view()[f].name != name@);
                    }
                    if f > i {
                        assert(self.index_view()[i as int].name != name@);
                    }
                }
                let blocks = Self::blocks_for(e.size);
                return Some(
                    AttrCore {
                        ino: e.ino,
                        size: e.size,
                        blocks,
                        perm_bits: 0o444,
                        nlink: 1,
                        is_dir: false,
                    },
                );
            }
            i += 1;
        }
        proof {
            lemma_find_by_name(self.index_view(), name@);
            let f = find_by_name(self.index_view(), name@);
            if f != -1 {
                assert(self.index_view()[f].name != name@);
            }
        }
        None
    }

    /// Attributes of an inode: the root directory, or a file of the
    /// index.
    pub fn getattr(&self, ino: u64) -> (r: Option<AttrCore>)
        ensures
            (ino == 1 ==> r == Some(root_attr_model())),
            (ino != 1 ==> ({
                let f = find_by_ino(self.index_view(), ino);
                match r {
                    Some(a) => f >= 0 && a == file_attr_model(ino, self.index_view()[f].size),
                    None => f == -1,
                }
            })),
    {
        if ino == 1 {
            return Some(
                AttrCore {
                    ino: 1,
                    size: 0,
                    blocks: 1,
                    perm_bits: 0o755,
                    nlink: 2,
                    is_dir: true,
                },
            );
        }
        match self.find_pos_by_ino(ino) {
            Some(i) => {
                let e = &self.entries[i];
                let blocks = Self::blocks_for(e.size);
                proof {
                    assert(self.index_view()[i as int].ino == e.ino);
                    lemma_find_by_ino(self.index_view(), ino);
                }
                Some(
                    AttrCore {
                        ino: e.ino,
                        size: e.size,
                        blocks,
                        perm_bits: 0o444,
                        nlink: 1,
                        is_dir: false,
                    },
                )
            },
            None => None,
        }
    }

    /// List the root directory from a resume offset. Only inode 1 lists;
    /// the bridge stops early when its reply buffer fills.
    pub fn readdir(&self, ino: u64, offset: i64) -> (r: Result<Vec<DirItem>, FsError>)
        ensures
            (ino != 1 ==> r == Err::<Vec<DirItem>, FsError>(FsError::NotDir)),
            (ino == 1 ==> (r matches Ok(items) && {
                let rows = readdir_rows(self.index_view(), offset);
                &&& items@.len() == rows.len()
                &&& forall|j: int|
                    0 <= j < rows.len() ==> {
                        &&& (#[trigger] items@[j]).ino == rows[j].0
                        &&& items@[j].offset == rows[j].1
                        &&& items@[j].is_dir == rows[j].2
                        &&& items@[j].name@ == rows[j].3
                    }
            })),
    {
        proof {
            use_type_invariant(&*self);
        }
        if ino != 1 {
            return Err(FsError::NotDir);
        }
        let mut items: Vec<DirItem> = Vec::new();
        let ghost rows = readdir_rows(self.index_view(), offset);
        if offset == 0 {
            let mut dot: Vec<u8> = Vec::new();
            dot.push(46);
            items.push(DirItem { ino: 1, offset: 1, is_dir: true, name: dot });
            let mut dotdot: Vec<u8> = Vec::new();
            dotdot.push(46);
            dotdot.push(46);
            items.push(DirItem { ino: 1, offset: 2, is_dir: true, name: dotdot });
            proof {
                assert(items@[0].name@ =~= seq![46u8]);
                assert(items@[1].name@ =~= seq![46u8, 46u8]);
            }
        }
        let ghost dots_len = if offset == 0 { 2int } else { 0int };
        let n = self.entries.len();
        let skip: usize = if offset < 3 {
            0
        } else if offset - 2 <= n as i64 {
            (offset - 2) as usize
        } else {
            n
        };
        proof {
            let sk = if offset < 3 { 0int } else { offset - 2 };
            if sk > n {
                assert(readdir_rows(self.index_view(), offset).len() == dots_len);
            }
        }
        let mut i: usize = skip;
        while i < n
            invariant
                0 <= skip <= i <= n == self.index_view().len(),
                n + 3 <= i64::MAX,
                rows == readdir_rows(self.index_view(), offset),
                skip == if offset < 3 { 0int } else if offset - 2 <= n { offset - 2 } else { n as int },
                rows.len() == dots_len + (if (if offset < 3 { 0int } else { offset - 2 }) <= n { n - (if offset < 3 { 0int } else { offset - 2 }) } else { 0int }),
                dots_len == if offset == 0 { 2int } else { 0int },
                items@.len() == dots_len + (i - skip),
                forall|j: int|
                    0 <= j < items@.len() ==> {
                        &&& (#[trigger] items@[j]).ino == rows[j].0
                        &&& items@[j].offset == rows[j].1
                        &&& items@[j].is_dir == rows[j].2
                        &&& items@[j].name@ == rows[j].3
                    },
            decreases n - i,
        {
            let e = &self.entries[i];
            let name = e.name.clone();
            let off: i64 = 3 + i as i64;
            proof {
                let sk = if offset < 3 { 0int } else { offset - 2 };
                let j = dots_len + (i - skip);
                assert(skip == sk);
                assert(rows[j] == (
                    self.index_view()[sk + (j - dots_len)].ino,
                    (3 + sk + (j - dots_len)) as i64,
                    false,
                    self.index_view()[sk + (j - dots_len)].name,
                ));
                assert(sk + (j - dots_len) == i);
                assert(self.index_view()[i as int].ino == e.ino);
                assert(self.index_view()[i as int].name == e.name@);
            }
            items.push(DirItem { ino: e.ino, offset: off, is_dir: false, name });
            i += 1;
        }
        proof {
            assert(items@.len() == rows.len());
        }
        Ok(items)
    }

    /// Open an entry: issue a fresh handle id bound to its inode. An
    /// unknown inode, or an exhausted id space, yields nothing.
    pub fn open(&mut self, ino: u64) -> (r: Option<u64>)
        ensures
            final(self).index_view() == old(self).index_view(),
            final(self).cache_count_cap() == old(self).cache_count_cap(),
            final(self).cache_byte_cap() == old(self).cache_byte_cap(),
            match r {
                Some(fh) => find_by_ino(old(self).index_view(), ino) >= 0 && fh == old(
                    self,
                ).next_handle() && old(self).next_handle() < u64::MAX && final(self).handles_view()
                    == old(self).handles_view().insert(fh, ino) && final(self).next_handle() == fh
                    + 1,
                None => (find_by_ino(old(self).index_view(), ino) == -1 || old(self).next_handle()
                    == u64::MAX) && final(self).handles_view() == old(self).handles_view()
                    && final(self).next_handle() == old(self).next_handle(),
            },
    {
        proof {
            use_type_invariant(&*self);
        }
        match self.find_pos_by_ino(ino) {
            Some(_) => {
                if self.next_fh == u64::MAX {
                    return None;
                }
                let fh = self.next_fh;
                self.next_fh = self.next_fh + 1;
                let mut handles: HashMap<u64, u64> = HashMap::new();
                core::mem::swap(&mut handles, &mut self.handles);
                handles.insert(fh, ino);
                core::mem::swap(&mut handles, &mut self.handles);
                Some(fh)
            },
            None => None,
        }
    }

    /// Drop a handle; dropping an unknown handle is harmless.
    pub fn release(&mut self, fh: u64)
        ensures
            final(self).index_view() == old(self).index_view(),
            final(self).cache_count_cap() == old(self).cache_count_cap(),
            final(self).cache_byte_cap() == old(self).cache_byte_cap(),
            final(self).handles_view() == old(self).handles_view().remove(fh),
            final(self).next_handle() == old(self).next_handle(),
    {
        proof {
            use_type_invariant(&*self);
        }
        let mut handles: HashMap<u64, u64> = HashMap::new();
        core::mem::swap(&mut handles, &mut self.handles);
        handles.remove(&fh);
        core::mem::swap(&mut handles, &mut self.handles);
    }

    /// Read `size` bytes at `offset` of the entry's exposed view. The
    /// order of checks matches the surface contract: unknown inode,
    /// then the trivial empty cases, then an unknown handle, then the
    /// backing read.
    pub fn read(&mut self, ino: u64, fh: u64, offset: i64, size: u32) -> (r: Result<
        Vec<u8>,
        FsError,
    >)
        ensures
            final(self).index_view() == old(self).index_view(),
            final(self).handles_view() == old(self).handles_view(),
            final(self).next_handle() == old(self).next_handle(),
            (find_by_ino(old(self).index_view(), ino) == -1 ==> r == Err::<Vec<u8>, FsError>(
                FsError::NoEnt,
            )),
            (find_by_ino(old(self).index_view(), ino) >= 0 && (size == 0 || offset < 0)
                ==> (r matches Ok(v) && v@ == Seq::<u8>::empty())),
            (find_by_ino(old(self).index_view(), ino) >= 0 && size > 0 && offset >= 0 && !old(
                self,
            ).handles_view().dom().contains(fh) ==> r == Err::<Vec<u8>, FsError>(FsError::BadF)),
            (find_by_ino(old(self).index_view(), ino) >= 0 && size > 0 && offset >= 0 && old(
                self,
            ).handles_view().dom().contains(fh) && offset as u64 >= old(self).index_view()[
                find_by_ino(old(self).index_view(), ino)
            ].size ==> (r matches Ok(v) && v@ == Seq::<u8>::empty())),
            (size > 0 && offset >= 0 && (offset as u64) < old(self).index_view()[
                find_by_ino(old(self).index_view(), ino)
            ].size ==> (r matches Ok(v) ==> {
                let f = find_by_ino(old(self).index_view(), ino);
                let e = old(self).index_view()[f];
                &&& f >= 0
                &&& cd_max_len(e.kind, e.size) <= u64::MAX
                &&& v@ == read_ok_view(e, offset as u64, size)
            })),
            (find_by_ino(old(self).index_view(), ino) >= 0 && size > 0 && offset >= 0 && old(
                self,
            ).handles_view().dom().contains(fh) && read_inputs_ok(
                old(self).index_view()[find_by_ino(old(self).index_view(), ino)],
                offset as u64,
                size,
            ) ==> r is Ok),
            (find_by_ino(old(self).index_view(), ino) >= 0 && size > 0 && offset >= 0 && old(
                self,
            ).handles_view().dom().contains(fh) && {
                let e = old(self).index_view()[find_by_ino(old(self).index_view(), ino)];
                &&& (offset as u64) < e.size
                &&& e.kind matches BackingKind::Cd2352 { .. }
                &&& chd_header_ok(e.archive)
                &&& (offset as u64) < cd_max_len(e.kind, e.size)
                &&& entry_hunk_size(e.archive) < 2352
            } ==> r == Err::<Vec<u8>, FsError>(FsError::Io)),
            final(self).cache_count_cap() == old(self).cache_count_cap(),
            final(self).cache_byte_cap() == old(self).cache_byte_cap(),
    {
        proof {
            use_type_invariant(&*self);
        }
        let pos = match self.find_pos_by_ino(ino) {
            Some(i) => i,
            None => return Err(FsError::NoEnt),
        };
        proof {
            lemma_find_by_ino(self.index_view(), ino);
            assert(self.index_view()[pos as int].ino == ino);
            assert(self.entries@[pos as int].ino == ino);
        }
        if size == 0 || offset < 0 {
            return Ok(Vec::new());
        }
        if !self.handles.contains_key(&fh) {
            return Err(FsError::BadF);
        }
        let offset_u: u64 = offset as u64;
        let ghost em = self.index_view()[pos as int];
        let entry_size = self.entries[pos].size;
        if offset_u >= entry_size {
            // past the exposed size: empty, before any archive work
            return Ok(Vec::new());
        }
        let h = {
            let e = &self.entries[pos];
            match chd_read_header(&e.archive) {
                Some(h) => h,
                None => return Err(FsError::Io),
            }
        };
        proof {
            assert(chd_header_of(em.archive) == Some(h));
            assert(entry_hunk_size(em.archive) == h.hunk_size);
        }
        let kind = self.entries[pos].kind;
        match kind {
            BackingKind::Cd2352 { first_data_lba, payload_kind, track_frames } => {
                let ub = user_bytes(payload_kind);
                let max_len: u64 = match track_frames {
                    Some(fr) => {
                        let p: u128 = (fr as u128) * (ub as u128);
                        if p > u64::MAX as u128 {
                            return Err(FsError::Io);
                        }
                        p as u64
                    },
                    None => self.entries[pos].size,
                };
                proof {
                    assert(max_len as int == cd_max_len(em.kind, em.size));
                }
                if offset_u >= max_len {
                    return Ok(Vec::new());
                }
                if h.hunk_size < 2352 {
                    return Err(FsError::Io);
                }
                // the shared cache is swapped out against a trivial
                // stand-in while the read works on it, so that this
                // value keeps its invariant at every point
                let mut cache = FrameCache::new(1, 0);
                core::mem::swap(&mut cache, &mut self.cache);
                let ghost before = cache.entries();
                let res = {
                    let e = &self.entries[pos];
                    read_cd_range(
                        &mut cache,
                        ino,
                        &e.archive,
                        h.hunk_size,
                        first_data_lba,
                        payload_kind,
                        offset_u,
                        size,
                        max_len,
                    )
                };
                proof {
                    assert(cache_grown(before, cache.entries(), ino, em.archive, h.hunk_size));
                    assert forall|i: int|
                        0 <= i < self.entries@.len() implies cache_coherent(
                        cache.entries(),
                        (#[trigger] self.entries@[i]).ino,
                        self.entries@[i].archive@,
                        entry_hunk_size(self.entries@[i].archive@),
                    ) by {
                        let ents = cache.entries();
                        assert forall|c: int|
                            0 <= c < ents.len() && (#[trigger] ents[c]).0.0
                                == self.entries@[i].ino implies ents[c].1 == crate::classify::frame_bytes_of(
                            self.entries@[i].archive@,
                            entry_hunk_size(self.entries@[i].archive@),
                            ents[c].0.1 as int,
                        ) by {
                            if before.contains(ents[c]) {
                                let k = choose|k: int|
                                    0 <= k < before.len() && before[k] == ents[c];
                                assert(cache_coherent(
                                    before,
                                    self.entries@[i].ino,
                                    self.entries@[i].archive@,
                                    entry_hunk_size(self.entries@[i].archive@),
                                ));
                            } else {
                                // a frame inserted during this read: it
                                // belongs to this inode, which is entry
                                // `pos` alone
                                assert(ents[c].0.0 == ino);
                                assert(self.entries@[i].ino == i + 2);
                                assert(self.entries@[pos as int].ino == pos + 2);
                                assert(em.ino == ino);
                                assert(i == pos);
                            }
                        }
                    }
                }
                core::mem::swap(&mut cache, &mut self.cache);
                match res {
                    Some(v) => Ok(v),
                    None => Err(FsError::Io),
                }
            },
            _ => {
                if h.hunk_size < 1 {
                    return Err(FsError::Io);
                }
                let e = &self.entries[pos];
                match read_dvd_range(&e.archive, h.hunk_size, e.size, offset_u, size) {
                    Some(v) => Ok(v),
                    None => Err(FsError::Io),
                }
            },
        }
    }
}

} // verus!
