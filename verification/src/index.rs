//! The flat index of exposed entries: classified archives sorted by
//! lowercased display name, with dense inode numbers starting at 2
//! (the root directory is inode 1).

use vstd::prelude::*;
use crate::classify::EntryInit;
use crate::classify::form2_suffix;
use crate::classify::iso_suffix;
use crate::classify::name_for;
use crate::geometry::BackingKind;
use crate::geometry::CdPayloadKind;

verus! {

/// One entry of the index.
pub struct IndexEntry {
    /// Inode number: position in the index plus 2.
    pub ino: u64,
    /// Display name of the exposed file.
    pub name: Vec<u8>,
    pub kind: BackingKind,
    /// Exposed size in bytes.
    pub size: u64,
    /// The backing archive's bytes.
    pub archive: Vec<u8>,
}

/// ASCII lowercasing of one byte.
pub open spec fn lower_byte(b: u8) -> u8 {
    if 65 <= b <= 90 {
        (b + 32) as u8
    } else {
        b
    }
}

/// ASCII lowercasing of a byte string.
pub open spec fn lower_bytes(s: Seq<u8>) -> Seq<u8> {
    s.map_values(|b: u8| lower_byte(b))
}

/// Strict lexicographic order on byte strings.
pub open spec fn lex_lt(a: Seq<u8>, b: Seq<u8>) -> bool
    decreases a.len(),
{
    if b.len() == 0 {
        false
    } else if a.len() == 0 {
        true
    } else if a[0] < b[0] {
        true
    } else if a[0] > b[0] {
        false
    } else {
        lex_lt(a.drop_first(), b.drop_first())
    }
}

/// Case-insensitive strict order on display names.
pub open spec fn name_lt(a: Seq<u8>, b: Seq<u8>) -> bool {
    lex_lt(lower_bytes(a), lower_bytes(b))
}

/// `a` sorts no later than `b`.
pub open spec fn name_le(a: Seq<u8>, b: Seq<u8>) -> bool {
    !name_lt(b, a)
}

pub proof fn lemma_lex_lt_asymmetric(a: Seq<u8>, b: Seq<u8>)
    ensures
        lex_lt(a, b) ==> !lex_lt(b, a),
    decreases a.len(),
{
    if a.len() > 0 && b.len() > 0 && a[0] == b[0] {
        lemma_lex_lt_asymmetric(a.drop_first(), b.drop_first());
    }
}

pub proof fn lemma_lex_lt_trans(a: Seq<u8>, b: Seq<u8>, c: Seq<u8>)
    ensures
        lex_lt(a, b) && lex_lt(b, c) ==> lex_lt(a, c),
    decreases a.len() + b.len() + c.len(),
{
    if lex_lt(a, b) && lex_lt(b, c) {
        if a.len() == 0 {
        } else {
            // a, b, c are all non-empty here
            if a[0] == b[0] && b[0] == c[0] {
                lemma_lex_lt_trans(a.drop_first(), b.drop_first(), c.drop_first());
            }
        }
    }
}

/// Transitivity in the shape the sortedness proofs use: what sorts
/// strictly before `b` sorts strictly before anything `b` sorts no later
/// than.
pub proof fn lemma_name_order(a: Seq<u8>, b: Seq<u8>, c: Seq<u8>)
    ensures
        name_lt(a, b) && name_le(b, c) ==> name_le(a, c) && !name_lt(c, a),
{
    lemma_lex_lt_asymmetric(lower_bytes(a), lower_bytes(b));
    lemma_lex_lt_trans(lower_bytes(c), lower_bytes(a), lower_bytes(b));
}

/// Compare two names case-insensitively, byte by byte.
fn name_less_than(a: &Vec<u8>, b: &Vec<u8>) -> (r: bool)
    ensures
        r == name_lt(a@, b@),
{
    let ghost la = lower_bytes(a@);
    let ghost lb = lower_bytes(b@);
    let an = a.len();
    let bn = b.len();
    let mut i: usize = 0;
    proof {
        assert(la.skip(0) =~= la);
        assert(lb.skip(0) =~= lb);
    }
    while i < an && i < bn
        invariant
            0 <= i <= an,
            0 <= i <= bn,
            an == a@.len(),
            bn == b@.len(),
            la == lower_bytes(a@),
            lb == lower_bytes(b@),
            lex_lt(la, lb) == lex_lt(la.skip(i as int), lb.skip(i as int)),
        ensures
            (i >= an || i >= bn) && lex_lt(la, lb) == lex_lt(
                la.skip(i as int),
                lb.skip(i as int),
            ),
        decreases an - i,
    {
        let ca = a[i];
        let cb = b[i];
        let lca = if 65 <= ca && ca <= 90 {
            ca + 32
        } else {
            ca
        };
        let lcb = if 65 <= cb && cb <= 90 {
            cb + 32
        } else {
            cb
        };
        proof {
            assert(la[i as int] == lower_byte(a@[i as int]));
            assert(lb[i as int] == lower_byte(b@[i as int]));
            assert(la.skip(i as int)[0] == la[i as int]);
            assert(lb.skip(i as int)[0] == lb[i as int]);
        }
        if lca < lcb {
            assert(lex_lt(la.skip(i as int), lb.skip(i as int)));
            return true;
        }
        if lca > lcb {
            assert(!lex_lt(la.skip(i as int), lb.skip(i as int)));
            return false;
        }
        proof {
            assert(la.skip(i as int).drop_first() =~= la.skip(i + 1));
            assert(lb.skip(i as int).drop_first() =~= lb.skip(i + 1));
        }
        i += 1;
    }
    // one name is a (case-insensitive) prefix of the other
    proof {
        if i >= an && i < bn {
            assert(la.skip(i as int).len() == 0);
            assert(lb.skip(i as int).len() > 0);
        } else if i >= bn {
            assert(lb.skip(i as int).len() == 0);
        }
    }
    an < bn
}

/// Stable insertion of an entry into a run sorted by name: the new entry
/// goes after any entry whose name does not sort after it.
pub open spec fn insert_by_name(s: Seq<EntryInit>, e: EntryInit) -> Seq<EntryInit>
    decreases s.len(),
{
    if s.len() == 0 {
        seq![e]
    } else if name_lt(e.name@, s[0].name@) {
        seq![e] + s
    } else {
        seq![s[0]] + insert_by_name(s.drop_first(), e)
    }
}

/// Stable insertion sort by lowercased name.
pub open spec fn sort_entries_spec(s: Seq<EntryInit>) -> Seq<EntryInit>
    decreases s.len(),
{
    if s.len() == 0 {
        Seq::<EntryInit>::empty()
    } else {
        insert_by_name(sort_entries_spec(s.drop_last()), s.last())
    }
}

pub open spec fn insert_name_position(s: Seq<EntryInit>, e: EntryInit) -> int
    decreases s.len(),
{
    if s.len() == 0 {
        0
    } else if name_lt(e.name@, s[0].name@) {
        0
    } else {
        1 + insert_name_position(s.drop_first(), e)
    }
}

proof fn lemma_insert_name_position(s: Seq<EntryInit>, e: EntryInit)
    ensures
        0 <= insert_name_position(s, e) <= s.len(),
        insert_by_name(s, e) == s.take(insert_name_position(s, e)) + seq![e] + s.skip(
            insert_name_position(s, e),
        ),
        forall|k: int|
            0 <= k < insert_name_position(s, e) ==> !name_lt(e.name@, (#[trigger] s[k]).name@),
        insert_name_position(s, e) < s.len() ==> name_lt(
            e.name@,
            s[insert_name_position(s, e)].name@,
        ),
    decreases s.len(),
{
    if s.len() == 0 {
        assert(insert_by_name(s, e) =~= s.take(0) + seq![e] + s.skip(0));
    } else if name_lt(e.name@, s[0].name@) {
        assert(insert_by_name(s, e) =~= s.take(0) + seq![e] + s.skip(0));
    } else {
        let rest = s.drop_first();
        lemma_insert_name_position(rest, e);
        let p = insert_name_position(rest, e);
        assert(insert_by_name(s, e) == seq![s[0]] + insert_by_name(rest, e));
        assert(seq![s[0]] + (rest.take(p) + seq![e] + rest.skip(p)) =~= s.take(p + 1) + seq![e]
            + s.skip(p + 1));
        assert forall|k: int|
            0 <= k < p + 1 implies !name_lt(e.name@, (#[trigger] s[k]).name@) by {
            if k > 0 {
                assert(s[k] == rest[k - 1]);
            }
        }
        if p + 1 < s.len() {
            assert(s[p + 1] == rest[p]);
        }
    }
}

/// Names sorted case-insensitively ascending.
pub open spec fn sorted_by_name(s: Seq<EntryInit>) -> bool {
    forall|i: int, j: int|
        0 <= i < j < s.len() ==> name_le((#[trigger] s[i]).name@, (#[trigger] s[j]).name@)
}

/// Some entry of `s` carries the name `n`.
pub open spec fn has_name(s: Seq<EntryInit>, n: Seq<u8>) -> bool {
    exists|i: int| 0 <= i < s.len() && (#[trigger] s[i]).name@ == n
}

/// All names pairwise distinct.
pub open spec fn distinct_names(s: Seq<EntryInit>) -> bool {
    forall|i: int, j: int|
        0 <= i < j < s.len() ==> (#[trigger] s[i]).name@ != (#[trigger] s[j]).name@
}

proof fn lemma_insert_keeps(s: Seq<EntryInit>, e: EntryInit)
    ensures
        insert_by_name(s, e).len() == s.len() + 1,
        forall|n: Seq<u8>| has_name(insert_by_name(s, e), n) == (n == e.name@ || has_name(s, n)),
        sorted_by_name(s) ==> sorted_by_name(insert_by_name(s, e)),
        sorted_by_name(s) && distinct_names(s) && !has_name(s, e.name@) ==> distinct_names(
            insert_by_name(s, e),
        ),
{
    lemma_insert_name_position(s, e);
    let p = insert_name_position(s, e);
    let t = insert_by_name(s, e);
    assert forall|n: Seq<u8>| has_name(t, n) implies (n == e.name@ || has_name(s, n)) by {
        let i = choose|i: int| 0 <= i < t.len() && (#[trigger] t[i]).name@ == n;
        if i < p {
            assert(t[i] == s[i]);
        } else if i == p {
            assert(t[i] == e);
        } else {
            assert(t[i] == s[i - 1]);
        }
    }
    assert forall|n: Seq<u8>| (n == e.name@ || has_name(s, n)) implies has_name(t, n) by {
        if n == e.name@ {
            assert(t[p] == e);
        } else {
            let i = choose|i: int| 0 <= i < s.len() && (#[trigger] s[i]).name@ == n;
            if i < p {
                assert(t[i] == s[i]);
            } else {
                assert(t[i + 1] == s[i]);
            }
        }
    }
    if sorted_by_name(s) {
        assert forall|i: int, j: int|
            0 <= i < j < t.len() implies name_le((#[trigger] t[i]).name@, (
        #[trigger] t[j]).name@) by {
            let a = if i < p {
                s[i]
            } else if i == p {
                e
            } else {
                s[i - 1]
            };
            let b = if j < p {
                s[j]
            } else if j == p {
                e
            } else {
                s[j - 1]
            };
            assert(t[i] == a);
            assert(t[j] == b);
            if i == p {
                // a == e, j > p: e against s[j - 1], with p <= j - 1
                if p < s.len() {
                    lemma_name_order(e.name@, s[p].name@, s[j - 1].name@);
                    lemma_lex_lt_asymmetric(lower_bytes(e.name@), lower_bytes(s[p].name@));
                }
            } else if j == p {
                // b == e, i < p: !name_lt(e, s[i]) gives name_le(s[i], e)
            } else if i < p && j > p {
            }
        }
        if distinct_names(s) && !has_name(s, e.name@) {
            assert forall|i: int, j: int|
                0 <= i < j < t.len() implies (#[trigger] t[i]).name@ != (
            #[trigger] t[j]).name@ by {
                if i == p {
                    assert(t[j] == s[j - 1]);
                } else if j == p {
                    assert(t[i] == s[i]);
                } else {
                    let a0 = if i < p {
                        i
                    } else {
                        i - 1
                    };
                    let b0 = if j < p {
                        j
                    } else {
                        j - 1
                    };
                    assert(t[i] == s[a0]);
                    assert(t[j] == s[b0]);
                }
            }
        }
    }
}

proof fn lemma_sort_entries_props(s: Seq<EntryInit>)
    ensures
        sort_entries_spec(s).len() == s.len(),
        forall|n: Seq<u8>| has_name(sort_entries_spec(s), n) == has_name(s, n),
        sorted_by_name(sort_entries_spec(s)),
        distinct_names(s) ==> distinct_names(sort_entries_spec(s)),
    decreases s.len(),
{
    if s.len() == 0 {
    } else {
        let prefix = s.drop_last();
        lemma_sort_entries_props(prefix);
        lemma_insert_keeps(sort_entries_spec(prefix), s.last());
        assert(sort_entries_spec(s) == insert_by_name(sort_entries_spec(prefix), s.last()));
        assert forall|n: Seq<u8>| has_name(sort_entries_spec(s), n) implies has_name(s, n) by {
            if n == s.last().name@ {
                assert(s[s.len() - 1].name@ == n);
            } else {
                assert(has_name(prefix, n));
                let i = choose|i: int| 0 <= i < prefix.len() && (#[trigger] prefix[i]).name@ == n;
                assert(s[i].name@ == n);
            }
        }
        assert forall|n: Seq<u8>| has_name(s, n) implies has_name(sort_entries_spec(s), n) by {
            let i = choose|i: int| 0 <= i < s.len() && (#[trigger] s[i]).name@ == n;
            if i == s.len() - 1 {
                assert(n == s.last().name@);
                lemma_insert_name_position(sort_entries_spec(prefix), s.last());
                let p = insert_name_position(sort_entries_spec(prefix), s.last());
                let t = insert_by_name(sort_entries_spec(prefix), s.last());
                assert(t[p] == s.last());
                assert(t[p].name@ == n);
            } else {
                assert(prefix[i].name@ == n);
                assert(has_name(prefix, n));
                assert(has_name(sort_entries_spec(prefix), n));
            }
            assert(has_name(insert_by_name(sort_entries_spec(prefix), s.last()), n));
        }
        if distinct_names(s) {
            assert(distinct_names(prefix)) by {
                assert forall|i: int, j: int|
                    0 <= i < j < prefix.len() implies (#[trigger] prefix[i]).name@ != (
                #[trigger] prefix[j]).name@ by {
                    assert(s[i] == prefix[i]);
                    assert(s[j] == prefix[j]);
                }
            }
            assert(!has_name(prefix, s.last().name@)) by {
                if has_name(prefix, s.last().name@) {
                    let i = choose|i: int|
                        0 <= i < prefix.len() && (#[trigger] prefix[i]).name@ == s.last().name@;
                    assert(s[i].name@ == s[s.len() - 1].name@);
                }
            }
            assert(!has_name(sort_entries_spec(prefix), s.last().name@));
        }
    }
}

fn find_insert_pos(out: &Vec<EntryInit>, name: &Vec<u8>) -> (k: usize)
    ensures
        0 <= k <= out@.len(),
        forall|j: int| 0 <= j < k ==> !name_lt(name@, (#[trigger] out@[j]).name@),
        k < out@.len() ==> name_lt(name@, out@[k as int].name@),
{
    let m = out.len();
    let mut k: usize = 0;
    while k < m
        invariant
            0 <= k <= m == out@.len(),
            forall|j: int| 0 <= j < k ==> !name_lt(name@, (#[trigger] out@[j]).name@),
        decreases m - k,
    {
        if name_less_than(name, &out[k].name) {
            return k;
        }
        k += 1;
    }
    k
}

/// Sort classified entries by lowercased display name, keeping the
/// original order of entries whose names compare equal.
fn sort_entries(items: Vec<EntryInit>) -> (r: Vec<EntryInit>)
    ensures
        r@ == sort_entries_spec(items@),
{
    let ghost orig = items@;
    let mut items = items;
    let mut out: Vec<EntryInit> = Vec::new();
    let n = items.len();
    let mut i: usize = 0;
    while i < n
        invariant
            0 <= i <= n == orig.len(),
            items@ == orig.skip(i as int),
            out@ == sort_entries_spec(orig.take(i as int)),
        decreases n - i,
    {
        let e = items.remove(0);
        proof {
            assert(e == orig.skip(i as int)[0]);
            assert(e == orig[i as int]);
            assert(items@ =~= orig.skip(i + 1));
            assert(orig.take(i + 1).drop_last() =~= orig.take(i as int));
            assert(orig.take(i + 1).last() == orig[i as int]);
            lemma_insert_name_position(out@, e);
        }
        let k = find_insert_pos(&out, &e.name);
        proof {
            let p = insert_name_position(out@, e);
            if p < k {
                assert(name_lt(e.name@, out@[p].name@));
                assert(!name_lt(e.name@, out@[p].name@));
            }
            if k < p {
                assert(name_lt(e.name@, out@[k as int].name@));
                assert(!name_lt(e.name@, out@[k as int].name@));
            }
            assert(p == k);
        }
        let ghost before = out@;
        out.insert(k, e);
        proof {
            assert(out@ =~= before.take(k as int) + seq![e] + before.skip(k as int));
        }
        i += 1;
    }
    proof {
        assert(orig.take(n as int) =~= orig);
        assert(orig.skip(n as int) =~= Seq::<EntryInit>::empty());
    }
    out
}

/// Build the index: sort the classified entries by lowercased display
/// name and assign inode numbers 2, 3, 4, ... in that order. Names sorted
/// case-insensitively ascending, inodes dense from 2; distinct input
/// names stay distinct. Distinctness is preserved, not created: two
/// sources that differ only in the case of their extension share a stem
/// and therefore a display name.
pub fn build_index(items: Vec<EntryInit>) -> (r: Vec<IndexEntry>)
    requires
        items@.len() + 2 <= u64::MAX,
    ensures
        r@.len() == items@.len(),
        forall|i: int|
            0 <= i < r@.len() ==> {
                let s = sort_entries_spec(items@);
                &&& (#[trigger] r@[i]).ino == i + 2
                &&& r@[i].name@ == s[i].name@
                &&& r@[i].kind == s[i].kind
                &&& r@[i].size == s[i].size
                &&& r@[i].archive@ == s[i].archive@
            },
        forall|i: int, j: int|
            0 <= i < j < r@.len() ==> name_le((#[trigger] r@[i]).name@, (#[trigger] r@[j]).name@),
        distinct_names(items@) ==> forall|i: int, j: int|
            0 <= i < j < r@.len() ==> (#[trigger] r@[i]).name@ != (#[trigger] r@[j]).name@,
{
    proof {
        lemma_sort_entries_props(items@);
    }
    let ghost orig = items@;
    let sorted = sort_entries(items);
    let ghost ss = sort_entries_spec(orig);
    let mut out: Vec<IndexEntry> = Vec::new();
    let mut sorted = sorted;
    let n = sorted.len();
    let mut i: usize = 0;
    while i < n
        invariant
            0 <= i <= n == ss.len(),
            n + 2 <= u64::MAX,
            sorted@ == ss.skip(i as int),
            out@.len() == i,
            forall|j: int|
                0 <= j < i ==> {
                    &&& (#[trigger] out@[j]).ino == j + 2
                    &&& out@[j].name@ == ss[j].name@
                    &&& out@[j].kind == ss[j].kind
                    &&& out@[j].size == ss[j].size
                    &&& out@[j].archive@ == ss[j].archive@
                },
        decreases n - i,
    {
        let e = sorted.remove(0);
        proof {
            assert(e == ss.skip(i as int)[0]);
            assert(e == ss[i as int]);
            assert(sorted@ =~= ss.skip(i + 1));
        }
        let ino: u64 = (i as u64) + 2;
        out.push(
            IndexEntry { ino, name: e.name, kind: e.kind, size: e.size, archive: e.archive },
        );
        i += 1;
    }
    proof {
        assert(ss.skip(n as int) =~= Seq::<EntryInit>::empty());
        assert forall|i: int, j: int|
            0 <= i < j < out@.len() implies name_le((#[trigger] out@[i]).name@, (
        #[trigger] out@[j]).name@) by {
            assert(out@[i].name@ == ss[i].name@);
            assert(out@[j].name@ == ss[j].name@);
        }
        if distinct_names(orig) {
            assert forall|i: int, j: int|
                0 <= i < j < out@.len() implies (#[trigger] out@[i]).name@ != (
            #[trigger] out@[j]).name@ by {
                assert(out@[i].name@ == ss[i].name@);
                assert(out@[j].name@ == ss[j].name@);
            }
        }
    }
    out
}

/// Display names are injective in the stem: two different stems never
/// collide, whatever payload each is exposed with.
pub proof fn lemma_names_injective(
    s1: Seq<u8>,
    pk1: CdPayloadKind,
    s2: Seq<u8>,
    pk2: CdPayloadKind,
)
    ensures
        name_for(s1, pk1) == name_for(s2, pk2) ==> s1 == s2,
{
    if name_for(s1, pk1) == name_for(s2, pk2) {
        let n1 = name_for(s1, pk1);
        let n2 = name_for(s2, pk2);
        let iso1 = !(pk1 is Mode2Form2_2324);
        let iso2 = !(pk2 is Mode2Form2_2324);
        if iso1 != iso2 {
            // ".iso" ends in 'o', " (Form2).bin" ends in 'n'
            assert(n1.last() != n2.last());
        } else {
            let suff = if iso1 {
                iso_suffix()
            } else {
                form2_suffix()
            };
            assert(n1 == s1 + suff);
            assert(n2 == s2 + suff);
            assert(n1.len() == s1.len() + suff.len());
            assert(n2.len() == s2.len() + suff.len());
            assert(n1.len() == n2.len());
            assert(s1.len() == s2.len());
            assert forall|i: int| 0 <= i < s1.len() implies s1[i] == s2[i] by {
                assert((s1 + suff)[i] == s1[i]);
                assert((s2 + suff)[i] == s2[i]);
            }
            assert(s1 =~= s2);
        }
    }
}

} // verus!
