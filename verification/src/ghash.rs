//! The struct lookup index: a hash table from a byte-string name to a struct
//! position, with chained collision resolution, growth past a high-water
//! load factor and shrinking below a low-water one.  Lookups, inserts and
//! removals are specified against `ghash_get`, the mathematical content of
//! the table; every resize is proved to preserve it.

use vstd::prelude::*;

verus! {

/// One chained entry: a key (a type name) and the struct position it maps to.
pub struct GEntry {
    pub key: Vec<u8>,
    pub val: usize,
}

/// A chained hash table from byte-string keys to struct positions.
pub struct GHash {
    /// One chain of entries per bucket.
    pub buckets: Vec<Vec<GEntry>>,
    /// Number of entries over all chains.
    pub nentries: usize,
}

/// One multiply-and-add step of the content hash.
pub open spec fn hash_step(h: u32, b: u8) -> u32 {
    (((h as int) * 33 + b as int) % 0x1_0000_0000) as u32
}

/// Content hash of a key, folded left to right from a fixed seed.
pub open spec fn hash_bytes(s: Seq<u8>) -> u32
    decreases s.len(),
{
    if s.len() == 0 {
        5381u32
    } else {
        hash_step(hash_bytes(s.drop_last()), s.last())
    }
}

/// The value the first entry of `chain` carrying key `k` maps it to.
pub open spec fn chain_find(chain: Seq<GEntry>, k: Seq<u8>) -> Option<usize>
    decreases chain.len(),
{
    if chain.len() == 0 {
        None
    } else if chain[0].key@ == k {
        Some(chain[0].val)
    } else {
        chain_find(chain.drop_first(), k)
    }
}

/// The bucket key `k` belongs to, given `n` buckets.
pub open spec fn bucket_index(k: Seq<u8>, n: int) -> int {
    hash_bytes(k) as int % n
}

/// What the table maps `k` to: the mathematical content of a `GHash`.
pub open spec fn ghash_get(g: GHash, k: Seq<u8>) -> Option<usize> {
    chain_find(g.buckets@[bucket_index(k, g.buckets@.len() as int)]@, k)
}

/// Number of entries over all chains.
pub open spec fn total_entries(bs: Seq<Vec<GEntry>>) -> nat
    decreases bs.len(),
{
    if bs.len() == 0 {
        0
    } else {
        total_entries(bs.drop_last()) + bs.last()@.len()
    }
}

/// Well-formedness: at least one bucket, every entry chained in the bucket
/// its key hashes to, no key repeated within a chain, and the entry count
/// in step with the chains.
pub open spec fn ghash_wf(g: GHash) -> bool {
    &&& g.buckets@.len() > 0
    &&& forall|b: int, i: int|
        0 <= b < g.buckets@.len() && 0 <= i < g.buckets@[b]@.len() ==> bucket_index(
            (#[trigger] g.buckets@[b]@[i]).key@,
            g.buckets@.len() as int,
        ) == b
    &&& forall|b: int, i: int, j: int|
        0 <= b < g.buckets@.len() && 0 <= i < j < g.buckets@[b]@.len() ==> (
        #[trigger] g.buckets@[b]@[i]).key@ != (#[trigger] g.buckets@[b]@[j]).key@
    &&& g.nentries == total_entries(g.buckets@)
}

/// A chain finds no value for `k` exactly when no entry of it carries `k`.
proof fn lemma_chain_find_absent(chain: Seq<GEntry>, k: Seq<u8>)
    ensures
        chain_find(chain, k) is None <==> (forall|i: int|
            0 <= i < chain.len() ==> (#[trigger] chain[i]).key@ != k),
    decreases chain.len(),
{
    if chain.len() > 0 {
        lemma_chain_find_absent(chain.drop_first(), k);
        assert(forall|i: int|
            1 <= i < chain.len() ==> (#[trigger] chain[i]) == chain.drop_first()[i - 1]);
    }
}

/// Appending an entry changes what a chain finds only for keys it did not
/// already carry.
proof fn lemma_chain_find_push(chain: Seq<GEntry>, e: GEntry, k: Seq<u8>)
    ensures
        chain_find(chain.push(e), k) == (if chain_find(chain, k) is Some {
            chain_find(chain, k)
        } else if e.key@ == k {
            Some(e.val)
        } else {
            None::<usize>
        }),
    decreases chain.len(),
{
    let ext = chain.push(e);
    assert(ext.len() == chain.len() + 1);
    if chain.len() == 0 {
        assert(ext[0] == e);
        if ext[0].key@ != k {
            assert(ext.drop_first() =~= Seq::<GEntry>::empty());
            assert(chain_find(Seq::<GEntry>::empty(), k) is None);
            assert(chain_find(ext, k) is None);
        }
    } else {
        assert(ext[0] == chain[0]);
        assert(ext.drop_first() =~= chain.drop_first().push(e));
        lemma_chain_find_push(chain.drop_first(), e, k);
        if chain[0].key@ == k {
            assert(chain_find(ext, k) == Some(chain[0].val));
            assert(chain_find(chain, k) == Some(chain[0].val));
        }
    }
}

/// Compares two byte strings for equality.
pub fn bytes_eq(a: &[u8], b: &[u8]) -> (r: bool)
    ensures
        r == (a@ == b@),
{
    if a.len() != b.len() {
        proof {
            assert(a@.len() != b@.len());
        }
        return false;
    }
    let n = a.len();
    let mut i: usize = 0;
    while i < n
        invariant
            n == a@.len(),
            n == b@.len(),
            i <= n,
            forall|j: int| 0 <= j < i ==> a@[j] == b@[j],
        decreases n - i,
    {
        if a[i] != b[i] {
            return false;
        }
        i += 1;
    }
    proof {
        assert(a@ =~= b@);
    }
    true
}

/// Computes the content hash of `key`.
pub fn hash_of(key: &[u8]) -> (r: u32)
    ensures
        r == hash_bytes(key@),
{
    let n = key.len();
    let mut h: u32 = 5381;
    let mut i: usize = 0;
    while i < n
        invariant
            n == key@.len(),
            i <= n,
            h == hash_bytes(key@.subrange(0, i as int)),
        decreases n - i,
    {
        let x: u64 = (h as u64) * 33 + key[i] as u64;
        let h2: u32 = (x % 0x1_0000_0000) as u32;
        proof {
            let pre = key@.subrange(0, i as int);
            let cur = key@.subrange(0, i + 1);
            assert(cur.drop_last() =~= pre);
            assert(cur.last() == key@[i as int]);
            assert(h2 == hash_step(h, key@[i as int]));
        }
        h = h2;
        i += 1;
    }
    proof {
        assert(key@.subrange(0, n as int) =~= key@);
    }
    h
}

/// Finds the first entry of `chain` whose key is `key`.
fn chain_lookup(chain: &Vec<GEntry>, key: &[u8]) -> (r: Option<usize>)
    ensures
        r == chain_find(chain@, key@),
{
    let n = chain.len();
    let mut i: usize = 0;
    proof {
        assert(chain@.skip(0) =~= chain@);
    }
    while i < n
        invariant
            n == chain@.len(),
            i <= n,
            chain_find(chain@, key@) == chain_find(chain@.skip(i as int), key@),
        decreases n - i,
    {
        let hit = bytes_eq(chain[i].key.as_slice(), key);
        proof {
            assert(chain@.skip(i as int)[0] == chain@[i as int]);
        }
        if hit {
            return Some(chain[i].val);
        }
        proof {
            assert(chain@.skip(i as int).drop_first() =~= chain@.skip(i + 1));
        }
        i += 1;
    }
    proof {
        assert(chain@.skip(n as int) =~= Seq::<GEntry>::empty());
    }
    None
}

impl GHash {
    /// An empty table with a small initial bucket array.
    pub fn new() -> (r: GHash)
        ensures
            ghash_wf(r),
            r.nentries == 0,
            forall|k: Seq<u8>| #[trigger] ghash_get(r, k) is None,
    {
        let mut buckets: Vec<Vec<GEntry>> = Vec::new();
        let mut i: usize = 0;
        while i < 8
            invariant
                i <= 8,
                buckets@.len() == i,
                forall|b: int| 0 <= b < i ==> (#[trigger] buckets@[b])@.len() == 0,
        decreases 8 - i,
        {
            buckets.push(Vec::new());
            i += 1;
        }
        proof {
            lemma_total_entries_empty(buckets@);
        }
        GHash { buckets, nentries: 0 }
    }

    /// What this table maps `key` to.
    pub fn lookup(&self, key: &[u8]) -> (r: Option<usize>)
        requires
            ghash_wf(*self),
        ensures
            r == ghash_get(*self, key@),
    {
        let h = hash_of(key);
        let b = (h as usize) % self.buckets.len();
        chain_lookup(&self.buckets[b], key)
    }

    /// Maps `key` to `val` unless `key` is already mapped; an earlier entry
    /// for the same key wins.  Grows the bucket array when the entry count
    /// passes three per bucket; growth preserves every mapping.
    pub fn insert(&mut self, key: Vec<u8>, val: usize)
        requires
            ghash_wf(*old(self)),
            old(self).nentries < usize::MAX,
        ensures
            ghash_wf(*final(self)),
            ghash_get(*final(self), key@) == (if ghash_get(*old(self), key@) is Some {
                ghash_get(*old(self), key@)
            } else {
                Some(val)
            }),
            forall|k: Seq<u8>|
                k != key@ ==> #[trigger] ghash_get(*final(self), k) == ghash_get(*old(self), k),
            final(self).nentries == old(self).nentries + (
            if ghash_get(*old(self), key@) is Some {
                0int
            } else {
                1int
            }),
    {
        if self.lookup(key.as_slice()).is_some() {
            return ;
        }
        if self.buckets.len() <= 0x1000000 && self.nentries >= 3 * self.buckets.len() {
            let newn = self.buckets.len() * 2;
            self.resize(newn);
        }
        let h = hash_of(key.as_slice());
        let b = (h as usize) % self.buckets.len();
        let ghost pre = *self;
        let ghost entry_key = key@;
        let e = GEntry { key, val };
        proof {
            lemma_total_entries_update(self.buckets@, b as int, e);
        }
        self.buckets[b].push(e);
        self.nentries += 1;
        proof {
            assert forall|k: Seq<u8>| true implies #[trigger] ghash_get(*self, k) == (if k
                == entry_key {
                Some(val)
            } else {
                ghash_get(pre, k)
            }) by {
                let n = pre.buckets@.len() as int;
                let bk = bucket_index(k, n);
                if bk == b {
                    lemma_chain_find_push(
                        pre.buckets@[b as int]@,
                        self.buckets@[b as int]@.last(),
                        k,
                    );
                    lemma_chain_find_absent(pre.buckets@[b as int]@, entry_key);
                } else {
                    assert(self.buckets@[bk]@ == pre.buckets@[bk]@);
                }
            }
            lemma_chain_find_absent(pre.buckets@[b as int]@, entry_key);
            assert forall|bb: int, i: int, j: int|
                0 <= bb < self.buckets@.len() && 0 <= i < j < self.buckets@[bb]@.len() implies (
            #[trigger] self.buckets@[bb]@[i]).key@ != (#[trigger] self.buckets@[bb]@[j]).key@ by {
                if bb == b && j == self.buckets@[bb]@.len() - 1 {
                    assert(self.buckets@[bb]@[i] == pre.buckets@[bb]@[i]);
                }
            }
        }
    }

    /// Unmaps `key` if it is mapped.  Shrinks the bucket array when the
    /// entry count falls below two entries per five buckets; shrinking
    /// preserves every remaining mapping.
    pub fn remove(&mut self, key: &[u8])
        requires
            ghash_wf(*old(self)),
        ensures
            ghash_wf(*final(self)),
            ghash_get(*final(self), key@) is None,
            forall|k: Seq<u8>|
                k != key@ ==> #[trigger] ghash_get(*final(self), k) == ghash_get(*old(self), k),
            final(self).nentries == old(self).nentries - (
            if ghash_get(*old(self), key@) is Some {
                1int
            } else {
                0int
            }),
    {
        let h = hash_of(key);
        let b = (h as usize) % self.buckets.len();
        let n = self.buckets[b].len();
        let mut i: usize = 0;
        proof {
            assert(self.buckets@[b as int]@.skip(0) =~= self.buckets@[b as int]@);
        }
        while i < n
            invariant
                ghash_wf(*self),
                *self == *old(self),
                b == bucket_index(key@, self.buckets@.len() as int),
                b < self.buckets@.len(),
                n == self.buckets@[b as int]@.len(),
                i <= n,
                chain_find(self.buckets@[b as int]@, key@) == chain_find(
                    self.buckets@[b as int]@.skip(i as int),
                    key@,
                ),
            decreases n - i,
        {
            let ghost chain0 = self.buckets@[b as int]@;
            let hit = bytes_eq(self.buckets[b][i].key.as_slice(), key);
            proof {
                assert(chain0.skip(i as int)[0] == chain0[i as int]);
            }
            if hit {
                let ghost pre = *self;
                proof {
                    lemma_total_entries_remove(self.buckets@, b as int, i as int);
                }
                let _taken = self.buckets[b].remove(i);
                self.nentries = self.nentries - 1;
                proof {
                    assert(chain_find(chain0, key@) == Some(chain0[i as int].val));
                    assert forall|k: Seq<u8>| true implies #[trigger] ghash_get(*self, k) == (
                    if k == key@ {
                        None::<usize>
                    } else {
                        ghash_get(pre, k)
                    }) by {
                        let nn = pre.buckets@.len() as int;
                        let bk = bucket_index(k, nn);
                        if bk == b {
                            lemma_chain_find_remove(chain0, i as int, k);
                            if k == key@ {
                            }
                        } else {
                            assert(self.buckets@[bk]@ == pre.buckets@[bk]@);
                        }
                    }
                    assert forall|bb: int, x: int|
                        0 <= bb < self.buckets@.len() && 0 <= x < self.buckets@[bb]@.len() implies
                    bucket_index(
                        (#[trigger] self.buckets@[bb]@[x]).key@,
                        self.buckets@.len() as int,
                    ) == bb by {
                        if bb == b {
                            assert(self.buckets@[bb]@[x] == chain0[if x < i {
                                x
                            } else {
                                x + 1
                            }]);
                        }
                    }
                    assert forall|bb: int, x: int, y: int|
                        0 <= bb < self.buckets@.len() && 0 <= x < y
                            < self.buckets@[bb]@.len() implies (
                    #[trigger] self.buckets@[bb]@[x]).key@ != (
                    #[trigger] self.buckets@[bb]@[y]).key@ by {
                        if bb == b {
                            assert(self.buckets@[bb]@[x] == chain0[if x < i {
                                x
                            } else {
                                x + 1
                            }]);
                            assert(self.buckets@[bb]@[y] == chain0[if y < i {
                                y
                            } else {
                                y + 1
                            }]);
                        }
                    }
                }
                if self.buckets.len() > 8 && self.buckets.len() <= 0x2000000 && self.nentries
                    < self.buckets.len() && self.nentries * 5 < self.buckets.len() * 2 {
                    let newn = self.buckets.len() / 2;
                    self.resize(newn);
                }
                return ;
            }
            proof {
                assert(chain0.skip(i as int).drop_first() =~= chain0.skip(i + 1));
            }
            i += 1;
        }
        proof {
            assert(self.buckets@[b as int]@.skip(n as int) =~= Seq::<GEntry>::empty());
        }
    }

    /// Rebuilds the bucket array at `newn` buckets, re-chaining every
    /// entry; the mapping is unchanged.
    fn resize(&mut self, newn: usize)
        requires
            ghash_wf(*old(self)),
            newn >= 1,
        ensures
            ghash_wf(*final(self)),
            final(self).nentries == old(self).nentries,
            final(self).buckets@.len() == newn,
            forall|k: Seq<u8>| #[trigger]
                ghash_get(*final(self), k) == ghash_get(*old(self), k),
    {
        let mut fresh: Vec<Vec<GEntry>> = Vec::new();
        let mut i: usize = 0;
        while i < newn
            invariant
                i <= newn,
                fresh@.len() == i,
                forall|b: int| 0 <= b < i ==> (#[trigger] fresh@[b])@.len() == 0,
            decreases newn - i,
        {
            fresh.push(Vec::new());
            i += 1;
        }
        let mut old_buckets = fresh;
        core::mem::swap(&mut self.buckets, &mut old_buckets);
        let ghost pre_chains = old_buckets@;
        let ghost oldn = pre_chains.len() as int;
        let nb = old_buckets.len();
        proof {
            lemma_total_entries_empty(self.buckets@);
            assert(pre_chains.subrange(0, 0) =~= Seq::<Vec<GEntry>>::empty());
            assert forall|k: Seq<u8>| #[trigger]
                chain_find(self.buckets@[bucket_index(k, newn as int)]@, k) == (
                if bucket_index(k, oldn) < 0 {
                    chain_find(pre_chains[bucket_index(k, oldn)]@, k)
                } else {
                    None::<usize>
                }) by {
                assert(0 <= bucket_index(k, newn as int) < newn);
                assert(self.buckets@[bucket_index(k, newn as int)]@.len() == 0);
            }
        }
        let mut b: usize = 0;
        while b < nb
            invariant
                nb == pre_chains.len(),
                b <= nb,
                self.nentries == old(self).nentries,
                newn == self.buckets@.len(),
                newn >= 1,
                nb > 0,
                old_buckets@ == pre_chains,
                forall|x: int, y: int|
                    0 <= x < nb && 0 <= y < pre_chains[x]@.len() ==> bucket_index(
                        (#[trigger] pre_chains[x]@[y]).key@,
                        oldn,
                    ) == x,
                forall|x: int, y: int, z: int|
                    0 <= x < nb && 0 <= y < z < pre_chains[x]@.len() ==> (
                    #[trigger] pre_chains[x]@[y]).key@ != (#[trigger] pre_chains[x]@[z]).key@,
                forall|bb: int, i2: int|
                    0 <= bb < newn && 0 <= i2 < self.buckets@[bb]@.len() ==> bucket_index(
                        (#[trigger] self.buckets@[bb]@[i2]).key@,
                        newn as int,
                    ) == bb,
                forall|bb: int, i2: int, j2: int|
                    0 <= bb < newn && 0 <= i2 < j2 < self.buckets@[bb]@.len() ==> (
                    #[trigger] self.buckets@[bb]@[i2]).key@ != (
                    #[trigger] self.buckets@[bb]@[j2]).key@,
                total_entries(self.buckets@) == total_entries(pre_chains.subrange(0, b as int)),
                forall|k: Seq<u8>| #[trigger]
                    chain_find(self.buckets@[bucket_index(k, newn as int)]@, k) == (
                    if bucket_index(k, oldn) < b {
                        chain_find(pre_chains[bucket_index(k, oldn)]@, k)
                    } else {
                        None::<usize>
                    }),
            decreases nb - b,
        {
            let ghost full_chain = old_buckets@[b as int]@;
            let nlen = old_buckets[b].len();
            let mut i2: usize = 0;
            proof {
                assert(full_chain.subrange(0, 0) =~= Seq::<GEntry>::empty());
            }
            while i2 < nlen
                invariant
                    nlen == full_chain.len(),
                    i2 <= nlen,
                    old_buckets@ == pre_chains,
                    self.nentries == old(self).nentries,
                    newn == self.buckets@.len(),
                    newn >= 1,
                    nb > 0,
                    b < nb,
                    nb == pre_chains.len(),
                    full_chain == pre_chains[b as int]@,
                    forall|x: int, y: int|
                        0 <= x < nb && 0 <= y < pre_chains[x]@.len() ==> bucket_index(
                            (#[trigger] pre_chains[x]@[y]).key@,
                            oldn,
                        ) == x,
                    forall|x: int, y: int|
                        0 <= y < x < full_chain.len() ==> (#[trigger] full_chain[x]).key@ != (
                        #[trigger] full_chain[y]).key@,
                    forall|bb: int, q: int|
                        0 <= bb < newn && 0 <= q < self.buckets@[bb]@.len() ==> bucket_index(
                            (#[trigger] self.buckets@[bb]@[q]).key@,
                            newn as int,
                        ) == bb,
                    forall|bb: int, q: int, r: int|
                        0 <= bb < newn && 0 <= q < r < self.buckets@[bb]@.len() ==> (
                        #[trigger] self.buckets@[bb]@[q]).key@ != (
                        #[trigger] self.buckets@[bb]@[r]).key@,
                    total_entries(self.buckets@) == total_entries(
                        pre_chains.subrange(0, b as int),
                    ) + i2,
                    forall|k: Seq<u8>| #[trigger]
                        chain_find(self.buckets@[bucket_index(k, newn as int)]@, k) == (
                        if bucket_index(k, oldn) < b {
                            chain_find(pre_chains[bucket_index(k, oldn)]@, k)
                        } else if bucket_index(k, oldn) == b {
                            chain_find(full_chain.subrange(0, i2 as int), k)
                        } else {
                            None::<usize>
                        }),
                decreases nlen - i2,
            {
                let ekey = clone_bytes(&old_buckets[b][i2].key);
                let eval = old_buckets[b][i2].val;
                let e = GEntry { key: ekey, val: eval };
                let ghost ek = e.key@;
                let h = hash_of(e.key.as_slice());
                let nb2 = (h as usize) % newn;
                let ghost prev = self.buckets@;
                proof {
                    assert(bucket_index(ek, oldn) == b as int);
                    let pref = full_chain.subrange(0, i2 as int);
                    lemma_chain_find_absent(pref, ek);
                    assert(full_chain[i2 as int].key@ == ek);
                    assert(forall|y: int| 0 <= y < i2 ==> (#[trigger] pref[y]) == full_chain[y]);
                    assert(chain_find(pref, ek) is None);
                    assert(chain_find(self.buckets@[bucket_index(ek, newn as int)]@, ek)
                        is None);
                    lemma_chain_find_absent(self.buckets@[nb2 as int]@, ek);
                    lemma_total_entries_update(self.buckets@, nb2 as int, e);
                }
                self.buckets[nb2].push(e);
                proof {
                    assert forall|k: Seq<u8>| true implies #[trigger] chain_find(
                        self.buckets@[bucket_index(k, newn as int)]@,
                        k,
                    ) == (if bucket_index(k, oldn) < b {
                        chain_find(pre_chains[bucket_index(k, oldn)]@, k)
                    } else if bucket_index(k, oldn) == b {
                        chain_find(full_chain.subrange(0, i2 + 1), k)
                    } else {
                        None::<usize>
                    }) by {
                        let nbk = bucket_index(k, newn as int);
                        if nbk == nb2 {
                            lemma_chain_find_push(prev[nb2 as int]@, self.buckets@[nb2 as int]@.last(), k);
                        } else {
                            assert(self.buckets@[nbk]@ == prev[nbk]@);
                        }
                        if bucket_index(k, oldn) == b {
                            let pref = full_chain.subrange(0, i2 as int);
                            assert(full_chain.subrange(0, i2 + 1) =~= pref.push(
                                full_chain[i2 as int],
                            ));
                            lemma_chain_find_push(pref, full_chain[i2 as int], k);
                            if k == ek {
                                lemma_chain_find_absent(pref, k);
                            }
                        }
                    }
                    assert forall|bb: int, q: int, r: int|
                        0 <= bb < newn && 0 <= q < r < self.buckets@[bb]@.len() implies (
                    #[trigger] self.buckets@[bb]@[q]).key@ != (
                    #[trigger] self.buckets@[bb]@[r]).key@ by {
                        if bb == nb2 && r == self.buckets@[bb]@.len() - 1 {
                            assert(self.buckets@[bb]@[q] == prev[bb]@[q]);
                        }
                    }
                }
                i2 += 1;
            }
            proof {
                assert(full_chain.subrange(0, nlen as int) =~= full_chain);
                assert(pre_chains.subrange(0, b + 1).drop_last() =~= pre_chains.subrange(
                    0,
                    b as int,
                ));
                assert(pre_chains.subrange(0, b + 1).last() == pre_chains[b as int]);
            }
            b += 1;
        }
        proof {
            assert(pre_chains.subrange(0, nb as int) =~= pre_chains);
        }
    }
}

/// Removing entry `i` from a chain of pairwise-distinct keys unmaps its
/// key and leaves every other key's result unchanged.
proof fn lemma_chain_find_remove(chain: Seq<GEntry>, i: int, k: Seq<u8>)
    requires
        0 <= i < chain.len(),
        forall|x: int, y: int|
            0 <= x < y < chain.len() ==> (#[trigger] chain[x]).key@ != (#[trigger] chain[y]).key@,
    ensures
        chain_find(chain.remove(i), k) == (if k == chain[i].key@ {
            None::<usize>
        } else {
            chain_find(chain, k)
        }),
    decreases chain.len(),
{
    if i == 0 {
        assert(chain.remove(0) =~= chain.drop_first());
        if k == chain[0].key@ {
            lemma_chain_find_absent(chain.drop_first(), k);
            assert(forall|x: int|
                0 <= x < chain.drop_first().len() ==> (#[trigger] chain.drop_first()[x]) == chain[
                    x + 1
                ]);
        }
    } else {
        assert(chain.remove(i)[0] == chain[0]);
        assert(chain.remove(i).drop_first() =~= chain.drop_first().remove(i - 1));
        assert(forall|x: int|
            0 <= x < chain.drop_first().len() ==> (#[trigger] chain.drop_first()[x]) == chain[x
                + 1]);
        lemma_chain_find_remove(chain.drop_first(), i - 1, k);
    }
}

/// Removing one entry from bucket `b` lowers the total count by one.
proof fn lemma_total_entries_remove(bs: Seq<Vec<GEntry>>, b: int, i: int)
    requires
        0 <= b < bs.len(),
        0 <= i < bs[b]@.len(),
    ensures
        forall|v: Vec<GEntry>|
            (#[trigger] v@) == bs[b]@.remove(i) ==> total_entries(bs.update(b, v)) + 1
                == total_entries(bs),
    decreases bs.len(),
{
    assert forall|v: Vec<GEntry>| (#[trigger] v@) == bs[b]@.remove(i) implies total_entries(
        bs.update(b, v),
    ) + 1 == total_entries(bs) by {
        if b == bs.len() - 1 {
            assert(bs.update(b, v).drop_last() =~= bs.drop_last());
            assert(bs.update(b, v).last() == v);
        } else {
            assert(bs.update(b, v).drop_last() =~= bs.drop_last().update(b, v));
            assert(bs.update(b, v).last() == bs.last());
            lemma_total_entries_remove(bs.drop_last(), b, i);
        }
    }
}

/// Copies a byte string.
pub fn clone_bytes(v: &Vec<u8>) -> (r: Vec<u8>)
    ensures
        r@ == v@,
{
    let mut r: Vec<u8> = Vec::new();
    let n = v.len();
    let mut i: usize = 0;
    while i < n
        invariant
            n == v@.len(),
            i <= n,
            r@ == v@.subrange(0, i as int),
        decreases n - i,
    {
        r.push(v[i]);
        proof {
            assert(r@ =~= v@.subrange(0, i + 1));
        }
        i += 1;
    }
    proof {
        assert(v@.subrange(0, n as int) =~= v@);
    }
    r
}

/// An all-empty bucket array holds no entries.
proof fn lemma_total_entries_empty(bs: Seq<Vec<GEntry>>)
    requires
        forall|b: int| 0 <= b < bs.len() ==> (#[trigger] bs[b])@.len() == 0,
    ensures
        total_entries(bs) == 0,
    decreases bs.len(),
{
    if bs.len() > 0 {
        lemma_total_entries_empty(bs.drop_last());
    }
}

/// Pushing one entry onto bucket `b` raises the total count by one.
proof fn lemma_total_entries_update(bs: Seq<Vec<GEntry>>, b: int, e: GEntry)
    requires
        0 <= b < bs.len(),
    ensures
        forall|v: Vec<GEntry>|
            (#[trigger] v@) == bs[b]@.push(e) ==> total_entries(bs.update(b, v)) == total_entries(
                bs,
            ) + 1,
    decreases bs.len(),
{
    assert forall|v: Vec<GEntry>| (#[trigger] v@) == bs[b]@.push(e) implies total_entries(
        bs.update(b, v),
    ) == total_entries(bs) + 1 by {
        if b == bs.len() - 1 {
            assert(bs.update(b, v).drop_last() =~= bs.drop_last());
            assert(bs.update(b, v).last() == v);
        } else {
            assert(bs.update(b, v).drop_last() =~= bs.drop_last().update(b, v));
            assert(bs.update(b, v).last() == bs.last());
            lemma_total_entries_update(bs.drop_last(), b, e);
        }
    }
}

} // verus!
