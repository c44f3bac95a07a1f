//! The slab allocator: elements of one fixed size, carved from chunks of a
//! fixed element count, with a free list for reuse.  A freed slot has its
//! leading bytes overwritten with a sentinel word so accidental reuse after
//! free is detectable; matched allocate/free churn is proved never to grow
//! the chunk chain.

use vstd::prelude::*;

use crate::wire::u64_bytes;

verus! {

/// The sentinel word written over a freed slot's leading bytes.
pub const POOL_FREEWORD: u64 = 0x44524f5745455246;

/// The record conceptually occupying a freed slot: the previous free-list
/// head and the sentinel marking the slot as free.
#[derive(Clone, Copy, PartialEq, Eq, Structural, Debug)]
pub struct BLI_freenode {
    /// Slot index of the next free slot, or `usize::MAX` at the list end.
    pub next: usize,
    /// Equal to `POOL_FREEWORD` in a freed slot.
    pub freeword: u64,
}

/// One chunk of slab storage, sliced into fixed-size slots.
pub struct BLI_mempool_chunk {
    pub data: Vec<u8>,
}

/// A slab allocator with free-list reuse.
pub struct BLI_mempool {
    /// Chunks, each holding `pchunk` slots of `esize` bytes.
    pub chunks: Vec<BLI_mempool_chunk>,
    /// Bytes per element; at least the size of a free node's sentinel.
    pub esize: usize,
    /// Elements per chunk.
    pub pchunk: usize,
    /// Slots carved from the last chunk.
    pub carved: usize,
    /// Indices of freed slots available for reuse, most recent last.
    pub free: Vec<usize>,
    /// Number of slots currently allocated.
    pub totused: usize,
}

/// Number of slots ever carved.
pub open spec fn total_carved(p: BLI_mempool) -> int {
    if p.chunks@.len() == 0 {
        0
    } else {
        (p.chunks@.len() - 1) * p.pchunk as int + p.carved as int
    }
}

/// Whether `slot` is currently allocated: carved and not on the free list.
pub open spec fn pool_allocated(p: BLI_mempool, slot: int) -> bool {
    0 <= slot < total_carved(p) && !p.free@.contains(slot as usize)
}

/// Well-formedness: sane sizes, full chunks, carving inside the last
/// chunk, a duplicate-free free list of carved slots, and a consistent
/// usage count.
pub open spec fn pool_wf(p: BLI_mempool) -> bool {
    &&& 8 <= p.esize <= 0x10000
    &&& 1 <= p.pchunk <= 0x1000
    &&& p.chunks@.len() <= 0xFFFFFFFF
    &&& forall|c: int|
        0 <= c < p.chunks@.len() ==> (#[trigger] p.chunks@[c]).data@.len() == p.esize as int
            * p.pchunk as int
    &&& p.carved <= p.pchunk
    &&& p.chunks@.len() == 0 ==> p.carved == 0
    &&& p.chunks@.len() > 0 ==> p.carved >= 0
    &&& forall|i: int| 0 <= i < p.free@.len() ==> (#[trigger] p.free@[i]) < total_carved(p)
    &&& forall|i: int, j: int| 0 <= i < j < p.free@.len() ==> p.free@[i] != p.free@[j]
    &&& p.free@.len() <= total_carved(p)
    &&& total_carved(p) <= usize::MAX
    &&& p.totused == total_carved(p) - p.free@.len()
}

impl BLI_mempool {
    /// An empty pool for elements of `esize` bytes, `pchunk` to a chunk.
    pub fn new(esize: usize, pchunk: usize) -> (r: BLI_mempool)
        requires
            8 <= esize <= 0x10000,
            1 <= pchunk <= 0x1000,
        ensures
            pool_wf(r),
            r.esize == esize,
            r.pchunk == pchunk,
            r.chunks@.len() == 0,
            r.totused == 0,
            forall|s: int| !pool_allocated(r, s),
    {
        BLI_mempool {
            chunks: Vec::new(),
            esize,
            pchunk,
            carved: 0,
            free: Vec::new(),
            totused: 0,
        }
    }

    /// Pops a reusable slot, or carves the next slot of the current chunk,
    /// or links a new chunk and carves its first slot.  Reuse never grows
    /// the chunk chain.
    pub fn allocate(&mut self) -> (slot: usize)
        requires
            pool_wf(*old(self)),
            total_carved(*old(self)) < 0xFFFFFFFF,
        ensures
            pool_wf(*final(self)),
            pool_allocated(*final(self), slot as int),
            !pool_allocated(*old(self), slot as int),
            forall|s: int|
                s != slot ==> pool_allocated(*final(self), s) == pool_allocated(*old(self), s),
            final(self).totused == old(self).totused + 1,
            final(self).esize == old(self).esize,
            final(self).pchunk == old(self).pchunk,
            old(self).free@.len() > 0 ==> final(self).chunks@.len() == old(self).chunks@.len(),
            final(self).chunks@.len() <= old(self).chunks@.len() + 1,
            total_carved(*final(self)) == total_carved(*old(self)) + (
            if old(self).free@.len() > 0 {
                0int
            } else {
                1int
            }),
    {
        let popped = self.free.pop();
        match popped {
            Some(slot) => {
                self.totused += 1;
                proof {
                    assert(old(self).free@[old(self).free@.len() - 1] == slot);
                    assert(old(self).free@.contains(slot));
                    assert forall|s: int|
                        s != slot implies #[trigger] pool_allocated(*self, s) == pool_allocated(
                        *old(self),
                        s,
                    ) by {
                        if old(self).free@.contains(s as usize) {
                            let k = choose|k: int|
                                0 <= k < old(self).free@.len() && old(self).free@[k] == s as usize;
                            if s as usize != slot {
                                assert(k < old(self).free@.len() - 1);
                                assert(self.free@[k] == s as usize);
                                assert(self.free@.contains(s as usize));
                            }
                        } else {
                            if self.free@.contains(s as usize) {
                                let k = choose|k: int|
                                    0 <= k < self.free@.len() && self.free@[k] == s as usize;
                                assert(old(self).free@[k] == s as usize);
                            }
                        }
                    }
                    assert(!self.free@.contains(slot)) by {
                        if self.free@.contains(slot) {
                            let k = choose|k: int|
                                0 <= k < self.free@.len() && self.free@[k] == slot;
                            assert(old(self).free@[k] == slot);
                            assert(old(self).free@[old(self).free@.len() - 1] == slot);
                        }
                    }
                }
                slot
            },
            None => {
                proof {
                    assert(old(self).free@.len() == 0);
                }
                proof {
                    lemma_mul_bound(self.esize as int, self.pchunk as int);
                }
                if self.chunks.len() == 0 || self.carved == self.pchunk {
                    let chunk = new_chunk(self.esize * self.pchunk);
                    self.chunks.push(chunk);
                    self.carved = 0;
                }
                proof {
                    lemma_mul_push(self.chunks@.len() - 1, self.pchunk as int);
                    lemma_mul_push(old(self).chunks@.len() - 1, old(self).pchunk as int);
                    lemma_mul_ge(self.chunks@.len() - 1, self.pchunk as int);
                    assert(total_carved(*self) == total_carved(*old(self)));
                    lemma_mul_nonneg(self.chunks@.len() - 1, self.pchunk as int);
                }
                let slot = (self.chunks.len() - 1) * self.pchunk + self.carved;
                self.carved += 1;
                self.totused += 1;
                proof {
                    assert(self.free@.len() == 0);
                    assert forall|s: int|
                        s != slot implies #[trigger] pool_allocated(*self, s) == pool_allocated(
                        *old(self),
                        s,
                    ) by {}
                }
                slot
            },
        }
    }

    /// Returns `slot` to the free list and stamps the sentinel word over
    /// its leading bytes.  The chunk chain never shrinks or grows here.
    #[verifier::rlimit(60)]
    pub fn free(&mut self, slot: usize)
        requires
            pool_wf(*old(self)),
            pool_allocated(*old(self), slot as int),
        ensures
            pool_wf(*final(self)),
            !pool_allocated(*final(self), slot as int),
            forall|s: int|
                s != slot ==> pool_allocated(*final(self), s) == pool_allocated(*old(self), s),
            final(self).totused == old(self).totused - 1,
            final(self).chunks@.len() == old(self).chunks@.len(),
            final(self).esize == old(self).esize,
            final(self).pchunk == old(self).pchunk,
            total_carved(*final(self)) == total_carved(*old(self)),
            slot_bytes(*final(self), slot as int).subrange(0, 8) == u64_bytes(
                POOL_FREEWORD,
                false,
            ),
    {
        let prev_head = if self.free.len() > 0 {
            self.free[self.free.len() - 1]
        } else {
            usize::MAX
        };
        let node = BLI_freenode { next: prev_head, freeword: POOL_FREEWORD };
        let ci = slot / self.pchunk;
        let inner = slot % self.pchunk;
        proof {
            lemma_slot_place(*self, slot as int);
        }
        let off = inner * self.esize;
        let chunk = &mut self.chunks[ci];
        let ghost data0 = chunk.data@;
        write_word_at(&mut chunk.data, off, node.freeword);
        proof {
            assert(self.chunks@[ci as int].data@.len() == data0.len());
        }
        self.free.push(slot);
        proof {
            lemma_free_list_short(*old(self), slot as int);
        }
        self.totused -= 1;
        proof {
            assert(self.free@.contains(slot)) by {
                assert(self.free@[self.free@.len() - 1] == slot);
            }
            assert forall|i: int, j: int|
                0 <= i < j < self.free@.len() implies self.free@[i] != self.free@[j] by {
                if j == self.free@.len() - 1 {
                    assert(self.free@[i] == old(self).free@[i]);
                    assert(self.free@[j] == slot);
                    if old(self).free@[i] == slot {
                        assert(old(self).free@.contains(slot));
                    }
                } else {
                    assert(self.free@[i] == old(self).free@[i]);
                    assert(self.free@[j] == old(self).free@[j]);
                }
            }
            assert(total_carved(*self) == total_carved(*old(self)));
            assert forall|s: int|
                s != slot implies #[trigger] pool_allocated(*self, s) == pool_allocated(
                *old(self),
                s,
            ) by {
                if 0 <= s < total_carved(*old(self)) {
                    if old(self).free@.contains(s as usize) {
                        let k = choose|k: int|
                            0 <= k < old(self).free@.len() && old(self).free@[k] == s as usize;
                        assert(self.free@[k] == s as usize);
                        assert(self.free@.contains(s as usize));
                    } else {
                        if self.free@.contains(s as usize) {
                            let k = choose|k: int|
                                0 <= k < self.free@.len() && self.free@[k] == s as usize;
                            if k < self.free@.len() - 1 {
                                assert(old(self).free@[k] == s as usize);
                                assert(old(self).free@.contains(s as usize));
                            } else {
                                assert(s as usize == slot);
                                assert(s == slot as int);
                            }
                        }
                    }
                }
            }
            assert(slot_bytes(*self, slot as int).subrange(0, 8) =~= u64_bytes(
                POOL_FREEWORD,
                false,
            ));
        }
    }

    /// Number of chunks on the chain.
    pub fn chunk_count(&self) -> (r: usize)
        ensures
            r == self.chunks@.len(),
    {
        self.chunks.len()
    }

    /// Number of slots currently allocated.
    pub fn used_count(&self) -> (r: usize)
        ensures
            r == self.totused,
    {
        self.totused
    }

    /// Reads one byte of a carved slot.
    pub fn slot_byte(&self, slot: usize, k: usize) -> (r: u8)
        requires
            pool_wf(*self),
            slot < total_carved(*self),
            k < self.esize,
        ensures
            r == slot_bytes(*self, slot as int)[k as int],
    {
        proof {
            lemma_slot_place(*self, slot as int);
        }
        let ci = slot / self.pchunk;
        let inner = slot % self.pchunk;
        let off = inner * self.esize;
        self.chunks[ci].data[off + k]
    }
}

/// Stepping a product of nonnegative factors by one factor.
proof fn lemma_mul_push(n: int, p: int)
    by (nonlinear_arith)
    requires
        p >= 0,
    ensures
        n * p + p == (n + 1) * p,
        0 * p == 0,
{
}

/// A duplicate-free free list of carved slots that misses one carved slot
/// cannot cover every carved slot.
proof fn lemma_free_list_short(p: BLI_mempool, slot: int)
    requires
        forall|i: int| 0 <= i < p.free@.len() ==> (#[trigger] p.free@[i]) < total_carved(p),
        forall|i: int, j: int| 0 <= i < j < p.free@.len() ==> p.free@[i] != p.free@[j],
        0 <= slot < total_carved(p),
        slot <= usize::MAX,
        !p.free@.contains(slot as usize),
    ensures
        p.free@.len() < total_carved(p),
{
    let n = total_carved(p);
    let fi = Seq::new(p.free@.len(), |i: int| p.free@[i] as int);
    assert(fi.no_duplicates());
    fi.unique_seq_to_set();
    let range = vstd::set_lib::set_int_range(0, n);
    vstd::set_lib::lemma_int_range(0, n);
    let target = range.remove(slot);
    vstd::set::axiom_set_remove_len(range, slot);
    assert(fi.to_set().subset_of(target)) by {
        assert forall|x: int| fi.to_set().contains(x) implies target.contains(x) by {
            assert(fi.contains(x));
            let i = choose|i: int| 0 <= i < fi.len() && fi[i] == x;
            assert(p.free@[i] < n);
            if x == slot {
                assert(p.free@[i] == slot as usize);
                assert(p.free@.contains(slot as usize));
            }
        }
    }
    vstd::set_lib::lemma_len_subset(fi.to_set(), target);
}

/// Bounded factors give a bounded product.
proof fn lemma_mul_bound(e: int, p: int)
    by (nonlinear_arith)
    requires
        0 <= e <= 0x10000,
        0 <= p <= 0x1000,
    ensures
        e * p <= 0x10000000,
{
}

/// A product of nonnegative factors is nonnegative.
proof fn lemma_mul_nonneg(n: int, p: int)
    by (nonlinear_arith)
    requires
        n >= 0,
        p >= 0,
    ensures
        n * p >= 0,
{
}

/// A product with a factor of at least one is at least the other factor.
proof fn lemma_mul_ge(n: int, p: int)
    by (nonlinear_arith)
    requires
        n >= 0,
        p >= 1,
    ensures
        n * p >= n,
{
}

/// The bytes of a carved slot.
pub open spec fn slot_bytes(p: BLI_mempool, slot: int) -> Seq<u8> {
    let ci = slot / p.pchunk as int;
    let inner = slot % p.pchunk as int;
    p.chunks@[ci].data@.subrange(inner * p.esize as int, (inner + 1) * p.esize as int)
}

/// A carved slot's chunk index and byte window are in bounds.
proof fn lemma_slot_place(p: BLI_mempool, slot: int)
    by (nonlinear_arith)
    requires
        pool_wf(p),
        0 <= slot < total_carved(p),
    ensures
        0 <= slot / (p.pchunk as int),
        slot / (p.pchunk as int) < p.chunks@.len(),
        0 <= slot % (p.pchunk as int),
        slot % (p.pchunk as int) < p.pchunk as int,
        (slot % (p.pchunk as int) + 1) * (p.esize as int) <= p.esize as int * p.pchunk as int,
        (slot % (p.pchunk as int)) * (p.esize as int) >= 0,
        (slot % (p.pchunk as int)) * (p.esize as int) + p.esize as int == (slot % (p.pchunk as int)
            + 1) * (p.esize as int),
        p.esize as int * p.pchunk as int <= 0x10000000,
{
}

/// Builds a chunk of `len` zero bytes.
fn new_chunk(len: usize) -> (r: BLI_mempool_chunk)
    ensures
        r.data@.len() == len,
{
    let mut data: Vec<u8> = Vec::new();
    let mut i: usize = 0;
    while i < len
        invariant
            i <= len,
            data@.len() == i,
        decreases len - i,
    {
        data.push(0);
        i += 1;
    }
    BLI_mempool_chunk { data }
}

/// Overwrites eight bytes at `off` with the little-endian image of `w`.
fn write_word_at(data: &mut Vec<u8>, off: usize, w: u64)
    requires
        off + 8 <= old(data)@.len(),
        old(data)@.len() <= 0x10000000,
    ensures
        final(data)@.len() == old(data)@.len(),
        final(data)@.subrange(off as int, off + 8) == u64_bytes(w, false),
        forall|i: int|
            0 <= i < old(data)@.len() && !(off <= i < off + 8) ==> (#[trigger] final(data)@[i])
                == old(data)@[i],
{
    let b0 = (w % 256) as u8;
    let d1 = w / 256;
    let b1 = (d1 % 256) as u8;
    let d2 = d1 / 256;
    let b2 = (d2 % 256) as u8;
    let d3 = d2 / 256;
    let b3 = (d3 % 256) as u8;
    let d4 = d3 / 256;
    let b4 = (d4 % 256) as u8;
    let d5 = d4 / 256;
    let b5 = (d5 % 256) as u8;
    let d6 = d5 / 256;
    let b6 = (d6 % 256) as u8;
    let b7 = (d6 / 256) as u8;
    set_byte(data, off, b0);
    set_byte(data, off + 1, b1);
    set_byte(data, off + 2, b2);
    set_byte(data, off + 3, b3);
    set_byte(data, off + 4, b4);
    set_byte(data, off + 5, b5);
    set_byte(data, off + 6, b6);
    set_byte(data, off + 7, b7);
    proof {
        assert(final(data)@.subrange(off as int, off + 8) =~= u64_bytes(w, false));
    }
}

/// Overwrites one byte.
fn set_byte(data: &mut Vec<u8>, i: usize, v: u8)
    requires
        i < old(data)@.len(),
    ensures
        final(data)@ == old(data)@.update(i as int, v),
{
    let cell = &mut data[i];
    *cell = v;
}

} // verus!
