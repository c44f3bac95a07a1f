//! The bump allocator: memory is carved from the current chunk, a new chunk
//! is linked when the current one cannot hold a request, and nothing is
//! released until the whole arena is dropped as one unit.  Regions are
//! addressed as a chunk index and an offset; every acquired region is
//! proved in bounds, aligned, and disjoint from every earlier one.

use vstd::prelude::*;

verus! {

/// One chunk of arena storage.
pub struct MemBuf {
    pub data: Vec<u8>,
}

/// A bump allocator over a chain of chunks.
pub struct MemArena {
    /// The chunk chain; the last chunk is the one being carved.
    pub bufs: Vec<MemBuf>,
    /// Default size of a fresh chunk.
    pub bufsize: usize,
    /// Bytes carved from the last chunk.
    pub cursize: usize,
    /// Alignment granted to every region.
    pub align: usize,
    /// Whether fresh chunks are zero-filled.
    pub use_calloc: bool,
    /// Every region handed out so far: chunk index, offset, length.
    pub regions: Ghost<Seq<(int, int, int)>>,
}

/// Well-formedness: a sane configuration, carving inside the last chunk,
/// every handed-out region in bounds and sealed (no region reaches past the
/// carve point of the last chunk), and regions pairwise disjoint.
pub open spec fn arena_wf(a: MemArena) -> bool {
    &&& 1 <= a.align <= 4096
    &&& 1 <= a.bufsize <= 0x10000000
    &&& a.bufs@.len() == 0 ==> a.cursize == 0
    &&& forall|b: int| 0 <= b < a.bufs@.len() ==> (#[trigger] a.bufs@[b]).data@.len() <= 0x20000000
    &&& a.bufs@.len() > 0 ==> a.cursize <= a.bufs@[a.bufs@.len() - 1].data@.len()
    &&& forall|i: int|
        0 <= i < a.regions@.len() ==> {
            let r = #[trigger] a.regions@[i];
            &&& 0 <= r.0 < a.bufs@.len()
            &&& 0 <= r.1
            &&& 0 < r.2
            &&& r.1 + r.2 <= a.bufs@[r.0].data@.len()
            &&& (r.0 == a.bufs@.len() - 1 ==> r.1 + r.2 <= a.cursize)
        }
    &&& forall|i: int, j: int|
        0 <= i < j < a.regions@.len() && (#[trigger] a.regions@[i]).0 == (
        #[trigger] a.regions@[j]).0 ==> (a.regions@[i].1 + a.regions@[i].2 <= a.regions@[j].1
            || a.regions@[j].1 + a.regions@[j].2 <= a.regions@[i].1)
}

/// Rounding up to the next multiple of the alignment lands on a multiple.
proof fn lemma_align_up(c: int, a: int)
    by (nonlinear_arith)
    requires
        a >= 1,
        0 <= c,
        c % a != 0,
    ensures
        (c + (a - c % a)) % a == 0,
{
}

/// Builds a chunk of `len` zero bytes.
fn zero_chunk(len: usize) -> (r: MemBuf)
    ensures
        r.data@.len() == len,
        forall|i: int| 0 <= i < len ==> (#[trigger] r.data@[i]) == 0,
{
    let mut data: Vec<u8> = Vec::new();
    let mut i: usize = 0;
    while i < len
        invariant
            i <= len,
            data@.len() == i,
            forall|j: int| 0 <= j < i ==> (#[trigger] data@[j]) == 0,
        decreases len - i,
    {
        data.push(0);
        i += 1;
    }
    MemBuf { data }
}

impl MemArena {
    /// An empty arena with the given default chunk size, alignment and
    /// zero-fill mode.
    pub fn new(bufsize: usize, align: usize, use_calloc: bool) -> (r: MemArena)
        requires
            1 <= align <= 4096,
            1 <= bufsize <= 0x10000000,
        ensures
            arena_wf(r),
            r.bufs@.len() == 0,
            r.regions@.len() == 0,
            r.bufsize == bufsize,
            r.align == align,
            r.use_calloc == use_calloc,
    {
        MemArena {
            bufs: Vec::new(),
            bufsize,
            cursize: 0,
            align,
            use_calloc,
            regions: Ghost(Seq::empty()),
        }
    }

    /// Carves a region of `size` bytes.  The region is aligned, lies inside
    /// one chunk, and overlaps no region handed out before; earlier regions
    /// survive untouched.
    pub fn acquire(&mut self, size: usize) -> (r: (usize, usize))
        requires
            arena_wf(*old(self)),
            1 <= size <= 0x10000000,
        ensures
            arena_wf(*final(self)),
            r.0 < final(self).bufs@.len(),
            r.1 + size <= final(self).bufs@[r.0 as int].data@.len(),
            r.1 as int % final(self).align as int == 0,
            final(self).regions@ == old(self).regions@.push((r.0 as int, r.1 as int, size as int)),
            final(self).align == old(self).align,
            final(self).bufsize == old(self).bufsize,
            final(self).use_calloc == old(self).use_calloc,
            final(self).bufs@.len() >= old(self).bufs@.len(),
            forall|b: int|
                0 <= b < old(self).bufs@.len() ==> (#[trigger] final(self).bufs@[b]).data@ == old(
                    self,
                ).bufs@[b].data@,
    {
        let align = self.align;
        let rem = self.cursize % align;
        let pad = if rem == 0 {
            0usize
        } else {
            align - rem
        };
        let aligned = self.cursize + pad;
        proof {
            if rem != 0 {
                lemma_align_up(self.cursize as int, align as int);
            }
        }
        let b: usize;
        let off: usize;
        let mut pushed = false;
        if self.bufs.len() == 0 {
            pushed = true;
        } else {
            let last = self.bufs.len() - 1;
            let cap = self.bufs[last].data.len();
            if aligned > cap || cap - aligned < size {
                pushed = true;
            }
        }
        if pushed {
            let len = if size > self.bufsize {
                size
            } else {
                self.bufsize
            };
            let chunk = zero_chunk(len);
            self.bufs.push(chunk);
            self.cursize = 0;
            b = self.bufs.len() - 1;
            off = 0;
        } else {
            b = self.bufs.len() - 1;
            off = aligned;
        }
        proof {
            assert(off + size <= self.bufs@[b as int].data@.len());
            assert(off as int % align as int == 0);
        }
        self.cursize = off + size;
        proof {
            self.regions@ = old(self).regions@.push((b as int, off as int, size as int));
            assert forall|i: int, j: int|
                0 <= i < j < self.regions@.len() && (#[trigger] self.regions@[i]).0 == (
                #[trigger] self.regions@[j]).0 implies (self.regions@[i].1 + self.regions@[i].2
                <= self.regions@[j].1 || self.regions@[j].1 + self.regions@[j].2
                <= self.regions@[i].1) by {
                if j == self.regions@.len() - 1 {
                    assert(self.regions@[i] == old(self).regions@[i]);
                    if pushed {
                        assert(self.regions@[i].0 < b as int);
                    }
                } else {
                    assert(self.regions@[i] == old(self).regions@[i]);
                    assert(self.regions@[j] == old(self).regions@[j]);
                }
            }
        }
        (b, off)
    }

    /// Writes one byte inside a chunk.
    pub fn write_byte(&mut self, b: usize, off: usize, v: u8)
        requires
            arena_wf(*old(self)),
            b < old(self).bufs@.len(),
            off < old(self).bufs@[b as int].data@.len(),
        ensures
            arena_wf(*final(self)),
            final(self).bufs@[b as int].data@ == old(self).bufs@[b as int].data@.update(
                off as int,
                v,
            ),
            final(self).bufs@.len() == old(self).bufs@.len(),
            forall|x: int|
                0 <= x < old(self).bufs@.len() && x != b ==> (#[trigger] final(self).bufs@[x]).data@
                    == old(self).bufs@[x].data@,
            final(self).regions@ == old(self).regions@,
            final(self).cursize == old(self).cursize,
            final(self).align == old(self).align,
    {
        let slot = &mut self.bufs[b];
        let cell = &mut slot.data[off];
        *cell = v;
    }

    /// Reads one byte inside a chunk.
    pub fn read_byte(&self, b: usize, off: usize) -> (r: u8)
        requires
            arena_wf(*self),
            b < self.bufs@.len(),
            off < self.bufs@[b as int].data@.len(),
        ensures
            r == self.bufs@[b as int].data@[off as int],
    {
        self.bufs[b].data[off]
    }

    /// Number of chunks on the chain.
    pub fn chunk_count(&self) -> (r: usize)
        ensures
            r == self.bufs@.len(),
    {
        self.bufs.len()
    }
}

} // verus!
