//! Bounded frame cache: an LRU from (entry id, frame index) to one
//! 2352-byte frame, with an entry-count cap enforced by the container and
//! a byte-count soft cap enforced by explicit eviction.
//!
//! The `lru` crate's container is trusted through a small set of wrappers;
//! its contents are modelled as a sequence of key/value pairs ordered from
//! most to least recently used.

use vstd::prelude::*;

verus! {

#[verifier::external_type_specification]
#[verifier::external_body]
#[verifier::reject_recursive_types(K)]
#[verifier::reject_recursive_types(V)]
#[verifier::reject_recursive_types(S)]
pub struct ExLruCache<K, V, S>(lru::LruCache<K, V, S>);

/// The pairs held by the container, most recently used first.
pub uninterp spec fn lru_entries(c: lru::LruCache<(u64, u64), Vec<u8>>) -> Seq<
    ((u64, u64), Seq<u8>),
>;

/// The fixed capacity the container was created with.
pub uninterp spec fn lru_capacity(c: lru::LruCache<(u64, u64), Vec<u8>>) -> nat;

/// No key occurs twice.
pub open spec fn distinct_keys(s: Seq<((u64, u64), Seq<u8>)>) -> bool {
    forall|i: int, j: int| 0 <= i < j < s.len() ==> (#[trigger] s[i]).0 != (#[trigger] s[j]).0
}

/// First position holding `k`, or -1.
pub open spec fn key_index(s: Seq<((u64, u64), Seq<u8>)>, k: (u64, u64)) -> int
    decreases s.len(),
{
    if s.len() == 0 {
        -1
    } else if s[0].0 == k {
        0
    } else {
        let r = key_index(s.drop_first(), k);
        if r == -1 {
            -1
        } else {
            r + 1
        }
    }
}

pub proof fn lemma_key_index(s: Seq<((u64, u64), Seq<u8>)>, k: (u64, u64))
    ensures
        key_index(s, k) == -1 ==> forall|i: int| 0 <= i < s.len() ==> (#[trigger] s[i]).0 != k,
        key_index(s, k) != -1 ==> 0 <= key_index(s, k) < s.len() && s[key_index(s, k)].0 == k
            && forall|i: int| 0 <= i < key_index(s, k) ==> (#[trigger] s[i]).0 != k,
    decreases s.len(),
{
    if s.len() == 0 {
    } else if s[0].0 == k {
    } else {
        lemma_key_index(s.drop_first(), k);
        assert forall|i: int| 1 <= i < s.len() implies s[i] == s.drop_first()[i - 1] by {}
    }
}

/// Relies on `lru::LruCache::new`: a fresh, empty cache of that capacity.
#[verifier::external_body]
fn lru_new(cap: usize) -> (r: lru::LruCache<(u64, u64), Vec<u8>>)
    requires
        cap >= 1,
    ensures
        lru_entries(r) == Seq::<((u64, u64), Seq<u8>)>::empty(),
        lru_capacity(r) == cap,
{
    lru::LruCache::new(std::num::NonZeroUsize::new(cap).unwrap())
}

/// Relies on `lru::LruCache::get`: a hit hands back the value and moves
/// the pair to the most-recent end; a miss changes nothing.
#[verifier::external_body]
fn lru_get(c: &mut lru::LruCache<(u64, u64), Vec<u8>>, k: (u64, u64)) -> (r: Option<Vec<u8>>)
    ensures
        lru_capacity(*final(c)) == lru_capacity(*old(c)),
        (key_index(lru_entries(*old(c)), k) < 0 ==> r is None && lru_entries(*final(c))
            == lru_entries(*old(c))),
        (key_index(lru_entries(*old(c)), k) >= 0 ==> (r matches Some(v) && v@ == lru_entries(
            *old(c),
        )[key_index(lru_entries(*old(c)), k)].1) && lru_entries(*final(c)) == seq![
            lru_entries(*old(c))[key_index(lru_entries(*old(c)), k)],
        ] + lru_entries(*old(c)).remove(key_index(lru_entries(*old(c)), k))),
{
    c.get(&k).cloned()
}

/// Relies on `lru::LruCache::push`: an existing key has its value
/// replaced and moved to the front, handing back the old pair; a new key
/// goes to the front, evicting the least recently used pair when the
/// cache is full.
#[verifier::external_body]
fn lru_push(c: &mut lru::LruCache<(u64, u64), Vec<u8>>, k: (u64, u64), v: Vec<u8>) -> (r: Option<
    ((u64, u64), Vec<u8>),
>)
    ensures
        lru_capacity(*final(c)) == lru_capacity(*old(c)),
        (key_index(lru_entries(*old(c)), k) >= 0 ==> lru_entries(*final(c)) == seq![((k, v@))]
            + lru_entries(*old(c)).remove(key_index(lru_entries(*old(c)), k)) && (r matches Some(
            p,
        ) && p.0 == k && p.1@ == lru_entries(*old(c))[key_index(lru_entries(*old(c)), k)].1)),
        (key_index(lru_entries(*old(c)), k) < 0 && lru_entries(*old(c)).len() < lru_capacity(
            *old(c),
        ) ==> lru_entries(*final(c)) == seq![((k, v@))] + lru_entries(*old(c)) && r is None),
        (key_index(lru_entries(*old(c)), k) < 0 && lru_entries(*old(c)).len() >= lru_capacity(
            *old(c),
        ) ==> lru_entries(*old(c)).len() > 0 && lru_entries(*final(c)) == seq![((k, v@))]
            + lru_entries(*old(c)).drop_last() && (r matches Some(p) && p.0 == lru_entries(
            *old(c),
        ).last().0 && p.1@ == lru_entries(*old(c)).last().1)),
{
    c.push(k, v)
}

/// Relies on `lru::LruCache::pop_lru`: removes and hands back the least
/// recently used pair, or nothing when empty.
#[verifier::external_body]
fn lru_pop_lru(c: &mut lru::LruCache<(u64, u64), Vec<u8>>) -> (r: Option<((u64, u64), Vec<u8>)>)
    ensures
        lru_capacity(*final(c)) == lru_capacity(*old(c)),
        (lru_entries(*old(c)).len() == 0 ==> r is None && lru_entries(*final(c)) == lru_entries(
            *old(c),
        )),
        (lru_entries(*old(c)).len() > 0 ==> (r matches Some(p) && p.0 == lru_entries(
            *old(c),
        ).last().0 && p.1@ == lru_entries(*old(c)).last().1) && lru_entries(*final(c))
            == lru_entries(*old(c)).drop_last()),
{
    c.pop_lru()
}

/// Relies on `lru::LruCache::len`: the number of held pairs.
#[verifier::external_body]
fn lru_len(c: &lru::LruCache<(u64, u64), Vec<u8>>) -> (r: usize)
    ensures
        r == lru_entries(*c).len(),
{
    c.len()
}

/// Total bytes held by the cached values.
pub open spec fn sum_len(s: Seq<((u64, u64), Seq<u8>)>) -> int
    decreases s.len(),
{
    if s.len() == 0 {
        0
    } else {
        sum_len(s.drop_last()) + s.last().1.len()
    }
}

pub proof fn lemma_sum_len_cons(e: ((u64, u64), Seq<u8>), t: Seq<((u64, u64), Seq<u8>)>)
    ensures
        sum_len(seq![e] + t) == e.1.len() + sum_len(t),
    decreases t.len(),
{
    let u = seq![e] + t;
    assert(u.len() > 0);
    assert(sum_len(u) == sum_len(u.drop_last()) + u.last().1.len());
    if t.len() == 0 {
        assert(u =~= seq![e]);
        assert(u.drop_last() =~= Seq::<((u64, u64), Seq<u8>)>::empty());
        assert(sum_len(u.drop_last()) == 0);
        assert(u.last() == e);
        assert(sum_len(t) == 0);
    } else {
        lemma_sum_len_cons(e, t.drop_last());
        assert(u.drop_last() =~= seq![e] + t.drop_last());
        assert(u.last() == t.last());
        assert(sum_len(t) == sum_len(t.drop_last()) + t.last().1.len());
    }
}

pub proof fn lemma_sum_len_remove(s: Seq<((u64, u64), Seq<u8>)>, i: int)
    requires
        0 <= i < s.len(),
    ensures
        sum_len(s.remove(i)) == sum_len(s) - s[i].1.len(),
    decreases s.len(),
{
    if i == s.len() - 1 {
        assert(s.remove(i) =~= s.drop_last());
    } else {
        lemma_sum_len_remove(s.drop_last(), i);
        assert(s.remove(i).drop_last() =~= s.drop_last().remove(i));
        assert(s.remove(i).last() == s.last());
    }
}

pub proof fn lemma_sum_len_nonneg_each(s: Seq<((u64, u64), Seq<u8>)>)
    ensures
        sum_len(s) >= 0,
        forall|i: int| 0 <= i < s.len() ==> (#[trigger] s[i]).1.len() <= sum_len(s),
    decreases s.len(),
{
    if s.len() > 0 {
        lemma_sum_len_nonneg_each(s.drop_last());
        assert forall|i: int| 0 <= i < s.len() implies (#[trigger] s[i]).1.len() <= sum_len(s) by {
            if i < s.len() - 1 {
                assert(s.drop_last()[i] == s[i]);
            }
        }
    }
}

/// The shared frame cache: a bounded LRU plus a byte counter that tracks
/// exactly the bytes held by the cached frames.
pub struct FrameCache {
    pub lru: lru::LruCache<(u64, u64), Vec<u8>>,
    pub bytes: u128,
    pub byte_cap: usize,
}

impl FrameCache {
    /// The cached pairs, most recently used first.
    pub open spec fn entries(self) -> Seq<((u64, u64), Seq<u8>)> {
        lru_entries(self.lru)
    }

    /// The entry-count cap.
    pub open spec fn count_cap(self) -> nat {
        lru_capacity(self.lru)
    }

    /// The byte-count soft cap.
    pub open spec fn byte_cap(self) -> int {
        self.byte_cap as int
    }

    /// The tracked byte count.
    pub open spec fn tracked_bytes(self) -> int {
        self.bytes as int
    }

    /// Well-formed: distinct keys, every value a whole 2352-byte frame,
    /// the counter equal to the held bytes, the count within its cap and
    /// the counter within one frame of the byte cap.
    pub open spec fn wf(self) -> bool {
        &&& distinct_keys(self.entries())
        &&& self.count_cap() >= 1
        &&& self.entries().len() <= self.count_cap()
        &&& (forall|i: int|
            0 <= i < self.entries().len() ==> (#[trigger] self.entries()[i]).1.len() == 2352)
        &&& self.tracked_bytes() == sum_len(self.entries())
        &&& self.tracked_bytes() <= self.byte_cap() + 2352
    }

    /// An empty cache with the given caps.
    pub fn new(count_cap: usize, byte_cap: usize) -> (r: FrameCache)
        requires
            count_cap >= 1,
        ensures
            r.wf(),
            r.entries() == Seq::<((u64, u64), Seq<u8>)>::empty(),
            r.count_cap() == count_cap,
            r.byte_cap() == byte_cap,
    {
        let lru = lru_new(count_cap);
        FrameCache { lru, bytes: 0, byte_cap }
    }

    /// Number of cached frames.
    pub fn frame_count(&self) -> (r: usize)
        ensures
            r == self.entries().len(),
    {
        lru_len(&self.lru)
    }

    /// Look a frame up; a hit returns an owned copy and refreshes the
    /// pair's recency.
    pub fn lookup(&mut self, key: (u64, u64)) -> (r: Option<Vec<u8>>)
        requires
            old(self).wf(),
        ensures
            final(self).wf(),
            final(self).count_cap() == old(self).count_cap(),
            final(self).byte_cap() == old(self).byte_cap(),
            (key_index(old(self).entries(), key) < 0 ==> r is None && final(self).entries()
                == old(self).entries()),
            (key_index(old(self).entries(), key) >= 0 ==> {
                let es = old(self).entries();
                let i = key_index(es, key);
                &&& r matches Some(v) && v@ == es[i].1
                &&& final(self).entries() == seq![es[i]] + es.remove(i)
            }),
    {
        let ghost es = lru_entries(self.lru);
        proof {
            lemma_key_index(es, key);
        }
        let r = lru_get(&mut self.lru, key);
        proof {
            let i = key_index(es, key);
            if i >= 0 {
                let moved = seq![es[i]] + es.remove(i);
                assert(self.entries() == moved);
                lemma_sum_len_remove(es, i);
                lemma_sum_len_cons(es[i], es.remove(i));
                assert forall|a: int, b: int|
                    0 <= a < b < moved.len() implies (#[trigger] moved[a]).0 != (
                #[trigger] moved[b]).0 by {
                    if a == 0 {
                        assert(moved[a] == es[i]);
                        if b - 1 < i {
                            assert(moved[b] == es.remove(i)[b - 1]);
                            assert(es.remove(i)[b - 1] == es[b - 1]);
                        } else {
                            assert(es.remove(i)[b - 1] == es[b]);
                        }
                    } else {
                        let a0 = if a - 1 < i {
                            a - 1
                        } else {
                            a
                        };
                        let b0 = if b - 1 < i {
                            b - 1
                        } else {
                            b
                        };
                        assert(moved[a] == es[a0]);
                        assert(moved[b] == es[b0]);
                    }
                }
                assert forall|j: int|
                    0 <= j < moved.len() implies (#[trigger] moved[j]).1.len() == 2352 by {
                    if j == 0 {
                    } else if j - 1 < i {
                        assert(moved[j] == es[j - 1]);
                    } else {
                        assert(moved[j] == es[j]);
                    }
                }
            }
        }
        r
    }

    /// Insert a freshly decompressed frame, evicting first by the count
    /// cap (inside the container) and then while the tracked bytes stay
    /// above the byte cap.
    pub fn insert(&mut self, key: (u64, u64), frame: Vec<u8>)
        requires
            old(self).wf(),
            frame@.len() == 2352,
        ensures
            final(self).wf(),
            final(self).count_cap() == old(self).count_cap(),
            final(self).byte_cap() == old(self).byte_cap(),
            final(self).tracked_bytes() <= final(self).byte_cap(),
            forall|i: int|
                0 <= i < final(self).entries().len() ==> (#[trigger] final(self).entries()[i]) == (
                key, frame@) || old(self).entries().contains(final(self).entries()[i]),
            final(self).entries().len() > 0 ==> final(self).entries()[0] == (key, frame@),
            old(self).byte_cap() >= 2352 ==> final(self).entries().len() > 0,
    {
        let ghost es = lru_entries(self.lru);
        proof {
            lemma_key_index(es, key);
            lemma_sum_len_nonneg_each(es);
        }
        self.bytes = self.bytes + 2352;
        let evicted = lru_push(&mut self.lru, key, frame);
        proof {
            let i = key_index(es, key);
            let now = lru_entries(self.lru);
            if i >= 0 {
                lemma_sum_len_remove(es, i);
                lemma_sum_len_cons((key, frame@), es.remove(i));
            } else if es.len() < lru_capacity(self.lru) {
                lemma_sum_len_cons((key, frame@), es);
            } else {
                lemma_sum_len_cons((key, frame@), es.drop_last());
            }
        }
        match evicted {
            Some(p) => {
                let plen = p.1.len();
                proof {
                    let i = key_index(es, key);
                    if i >= 0 {
                        assert(p.1@ == es[i].1);
                    } else {
                        assert(p.1@ == es.last().1);
                    }
                }
                self.bytes = self.bytes - plen as u128;
            },
            None => (),
        }
        proof {
            let i = key_index(es, key);
            let now = lru_entries(self.lru);
            assert forall|a: int, b: int|
                0 <= a < b < now.len() implies (#[trigger] now[a]).0 != (#[trigger] now[b]).0 by {
                if i >= 0 {
                    if a == 0 {
                        if b - 1 < i {
                            assert(now[b] == es[b - 1]);
                        } else {
                            assert(now[b] == es[b]);
                        }
                    } else {
                        let a0 = if a - 1 < i {
                            a - 1
                        } else {
                            a
                        };
                        let b0 = if b - 1 < i {
                            b - 1
                        } else {
                            b
                        };
                        assert(now[a] == es[a0]);
                        assert(now[b] == es[b0]);
                    }
                } else {
                    if a == 0 {
                        assert(now[b] == es[b - 1]);
                    } else {
                        assert(now[a] == es[a - 1]);
                        assert(now[b] == es[b - 1]);
                    }
                }
            }
            assert forall|j: int| 0 <= j < now.len() implies (#[trigger] now[j]).1.len()
                == 2352 by {
                if j > 0 {
                    if i >= 0 {
                        if j - 1 < i {
                            assert(now[j] == es[j - 1]);
                        } else {
                            assert(now[j] == es[j]);
                        }
                    } else {
                        assert(now[j] == es[j - 1]);
                    }
                }
            }
            assert forall|j: int|
                0 <= j < now.len() implies (#[trigger] now[j]) == (key, frame@)
                || es.contains(now[j]) by {
                if j > 0 {
                    if i >= 0 {
                        if j - 1 < i {
                            assert(now[j] == es[j - 1]);
                        } else {
                            assert(now[j] == es[j]);
                        }
                    } else {
                        assert(now[j] == es[j - 1]);
                    }
                }
            }
        }
        let ghost mid = lru_entries(self.lru);
        proof {
            assert(lru_entries(self.lru)[0] == ((key, frame@)));
        }
        while self.bytes > self.byte_cap as u128
            invariant
                lru_entries(self.lru).len() > 0 ==> lru_entries(self.lru)[0] == ((key, frame@)),
                self.byte_cap >= 2352 ==> lru_entries(self.lru).len() > 0,
                self.bytes == sum_len(lru_entries(self.lru)),
                distinct_keys(lru_entries(self.lru)),
                forall|j: int|
                    0 <= j < lru_entries(self.lru).len() ==> (#[trigger] lru_entries(
                        self.lru,
                    )[j]).1.len() == 2352,
                lru_entries(self.lru).len() <= lru_capacity(self.lru),
                lru_capacity(self.lru) == old(self).count_cap(),
                lru_capacity(self.lru) >= 1,
                self.byte_cap == old(self).byte_cap,
                forall|j: int|
                    0 <= j < lru_entries(self.lru).len() ==> mid.contains(
                        #[trigger] lru_entries(self.lru)[j],
                    ),
                forall|j: int|
                    0 <= j < mid.len() ==> (#[trigger] mid[j]) == (key, frame@) || old(
                        self,
                    ).entries().contains(mid[j]),
            decreases lru_entries(self.lru).len(),
        {
            let ghost cur = lru_entries(self.lru);
            proof {
                // the counter is above the cap, so some frame is held
                lemma_sum_len_nonneg_each(cur);
                if cur.len() == 0 {
                    assert(sum_len(cur) == 0);
                    assert(false);
                }
            }
            let p = lru_pop_lru(&mut self.lru);
            match p {
                Some(q) => {
                    let qlen = q.1.len();
                    proof {
                        assert(q.1@ == cur.last().1);
                        assert(sum_len(cur.drop_last()) == sum_len(cur) - cur.last().1.len());
                    }
                    self.bytes = self.bytes - qlen as u128;
                },
                None => {
                    // unreachable: the cache was shown non-empty above
                    proof {
                        assert(false);
                    }
                },
            }
            proof {
                assert forall|j: int|
                    0 <= j < lru_entries(self.lru).len() implies cur.contains(
                    #[trigger] lru_entries(self.lru)[j]) by {
                    assert(lru_entries(self.lru)[j] == cur[j]);
                }
                if lru_entries(self.lru).len() > 0 {
                    assert(lru_entries(self.lru)[0] == cur[0]);
                }
                if self.byte_cap >= 2352 {
                    // the loop only ran because the counter was above the
                    // cap, so at least two frames were held
                    assert(sum_len(cur) > self.byte_cap);
                    if cur.len() == 1 {
                        assert(cur.drop_last() =~= Seq::<((u64, u64), Seq<u8>)>::empty());
                        assert(sum_len(cur) == cur.last().1.len());
                    }
                }
            }
        }
        proof {
            lemma_sum_len_nonneg_each(lru_entries(self.lru));
        }
    }
}

} // verus!
