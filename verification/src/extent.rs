//! One extent: a fixed run of contiguous blocks together with the metadata
//! that says which of them await a flush.

use vstd::prelude::*;
use crate::definition::{lemma_block_span, lemma_sizes_fit, RegionDefinition};

verus! {

/// The blocks of one extent and its metadata, as plain values. A region
/// owns its extents and keeps each of them well formed.
#[derive(Debug)]
pub struct Extent {
    /// The block data, block after block.
    pub data: Vec<u8>,
    /// One bit per block: written since the last flush.
    pub dirty_blocks: Vec<bool>,
    /// Whether any block is dirty.
    pub dirty: bool,
    /// Epoch of the contents; it rises only across a repair.
    pub generation: u64,
    /// Number of the last flush that covered this extent.
    pub flush_number: u64,
    /// Generation that the caller supplied with that flush.
    pub flushed_generation: u64,
}

/// The repair-coordination numbers of one extent, for comparison with peers.
#[derive(Clone, Copy, Debug, PartialEq, Eq, Structural)]
pub struct ExtentMeta {
    /// Epoch of the contents.
    pub generation: u64,
    /// Number of the last flush that covered the extent.
    pub flush_number: u64,
    /// Generation that the caller supplied with that flush.
    pub flushed_generation: u64,
    /// Whether any block awaits a flush.
    pub dirty: bool,
}

/// `s` with `piece` laid over it from position `at` on.
pub open spec fn splice(s: Seq<u8>, at: int, piece: Seq<u8>) -> Seq<u8> {
    Seq::new(
        s.len(),
        |p: int|
            if at <= p < at + piece.len() {
                piece[p - at]
            } else {
                s[p]
            },
    )
}

/// Whether any bit of `bits` is set.
pub open spec fn any_set(bits: Seq<bool>) -> bool {
    exists|i: int| 0 <= i < bits.len() && bits[i]
}

/// Whether any bit of `bits` is set.
pub fn has_set_bit(bits: &Vec<bool>) -> (r: bool)
    ensures
        r == any_set(bits@),
{
    let mut i: usize = 0;
    while i < bits.len()
        invariant
            i <= bits.len(),
            forall|j: int| 0 <= j < i ==> !bits@[j],
        decreases bits.len() - i,
    {
        if bits[i] {
            return true;
        }
        i += 1;
    }
    false
}

impl Extent {
    /// The metadata is well formed for `def`: one dirty bit per block, and
    /// the extent-level flag mirrors them.
    pub open spec fn meta_wf(&self, def: RegionDefinition) -> bool {
        &&& self.dirty_blocks@.len() == def.extent_size
        &&& self.dirty == any_set(self.dirty_blocks@)
    }

    /// The extent is well formed for `def`: metadata as above, and data of
    /// exactly one extent's length.
    pub open spec fn wf(&self, def: RegionDefinition) -> bool {
        &&& self.meta_wf(def)
        &&& self.data@.len() == def.extent_bytes()
    }

    /// The bytes of block `i`.
    pub open spec fn block(&self, def: RegionDefinition, i: int) -> Seq<u8> {
        self.data@.subrange(i * def.block_size, i * def.block_size + def.block_size)
    }

    /// The numbers that peers compare.
    pub open spec fn meta_view(&self) -> ExtentMeta {
        ExtentMeta {
            generation: self.generation,
            flush_number: self.flush_number,
            flushed_generation: self.flushed_generation,
            dirty: self.dirty,
        }
    }

    /// A fresh extent: every byte zero, nothing dirty, generation and flush
    /// number zero.
    pub fn new(def: &RegionDefinition) -> (e: Extent)
        requires
            def.valid(),
        ensures
            e.wf(*def),
            forall|p: int| 0 <= p < e.data@.len() ==> e.data@[p] == 0,
            forall|i: int| 0 <= i < e.dirty_blocks@.len() ==> !e.dirty_blocks@[i],
            e.generation == 0,
            e.flush_number == 0,
            e.flushed_generation == 0,
    {
        let len = def.extent_len();
        let mut data: Vec<u8> = Vec::new();
        let mut p: usize = 0;
        while p < len
            invariant
                p <= len,
                data@.len() == p,
                forall|q: int| 0 <= q < p ==> data@[q] == 0,
            decreases len - p,
        {
            data.push(0);
            p += 1;
        }
        let mut dirty_blocks: Vec<bool> = Vec::new();
        let mut i: u64 = 0;
        while i < def.extent_size
            invariant
                i <= def.extent_size,
                dirty_blocks@.len() == i,
                forall|j: int| 0 <= j < i ==> !dirty_blocks@[j],
            decreases def.extent_size - i,
        {
            dirty_blocks.push(false);
            i += 1;
        }
        Extent {
            data,
            dirty_blocks,
            dirty: false,
            generation: 0,
            flush_number: 0,
            flushed_generation: 0,
        }
    }

    /// Appends the bytes of block `i` to `out`.
    pub fn read_block(&self, def: &RegionDefinition, i: u64, out: &mut Vec<u8>)
        requires
            def.valid(),
            self.wf(*def),
            i < def.extent_size,
        ensures
            final(out)@ == old(out)@ + self.block(*def, i as int),
    {
        proof {
            lemma_sizes_fit(*def);
            lemma_block_span(i as int, def.extent_size as int, def.block_size as int);
        }
        let bs = def.block_size as usize;
        let base = (i * def.block_size) as usize;
        let mut j: usize = 0;
        while j < bs
            invariant
                j <= bs,
                bs == def.block_size,
                base == i * def.block_size,
                base + bs <= self.data.len(),
                out@ == old(out)@ + self.data@.subrange(base as int, base + j),
            decreases bs - j,
        {
            out.push(self.data[base + j]);
            j += 1;
        }
    }

    /// Overwrites block `i` with the `block_size` bytes of `src` that start
    /// at `off`, and marks the block dirty.
    pub fn write_block(&mut self, def: &RegionDefinition, i: u64, src: &Vec<u8>, off: usize)
        requires
            def.valid(),
            old(self).wf(*def),
            i < def.extent_size,
            off + def.block_size <= src@.len(),
        ensures
            final(self).wf(*def),
            final(self).data@ == splice(
                old(self).data@,
                i * def.block_size,
                src@.subrange(off as int, off + def.block_size),
            ),
            final(self).dirty_blocks@ == old(self).dirty_blocks@.update(i as int, true),
            final(self).generation == old(self).generation,
            final(self).flush_number == old(self).flush_number,
            final(self).flushed_generation == old(self).flushed_generation,
    {
        proof {
            lemma_sizes_fit(*def);
            lemma_block_span(i as int, def.extent_size as int, def.block_size as int);
        }
        let bs = def.block_size as usize;
        let base = (i * def.block_size) as usize;
        let mut j: usize = 0;
        while j < bs
            invariant
                j <= bs,
                bs == def.block_size,
                base == i * def.block_size,
                base + bs <= self.data.len(),
                off + bs <= src.len(),
                self.data@.len() == old(self).data@.len(),
                self.dirty_blocks == old(self).dirty_blocks,
                self.dirty == old(self).dirty,
                self.generation == old(self).generation,
                self.flush_number == old(self).flush_number,
                self.flushed_generation == old(self).flushed_generation,
                forall|p: int|
                    0 <= p < self.data@.len() ==> self.data@[p] == if base <= p < base + j {
                        src@[off + p - base]
                    } else {
                        old(self).data@[p]
                    },
            decreases bs - j,
        {
            self.data.set(base + j, src[off + j]);
            j += 1;
        }
        self.dirty_blocks.set(i as usize, true);
        self.dirty = true;
        proof {
            assert(self.dirty_blocks@[i as int]);
            assert(self.data@ =~= splice(
                old(self).data@,
                i * def.block_size,
                src@.subrange(off as int, off + def.block_size),
            ));
        }
    }

    /// Records a flush: every dirty bit is cleared, the flush number and
    /// the generation that came with it are stored. The contents and the
    /// extent's own generation stay.
    pub fn flush(&mut self, def: &RegionDefinition, flush_number: u64, generation_number: u64)
        requires
            old(self).wf(*def),
        ensures
            final(self).wf(*def),
            final(self).data == old(self).data,
            final(self).dirty_blocks@.len() == old(self).dirty_blocks@.len(),
            forall|i: int| 0 <= i < final(self).dirty_blocks@.len()
                ==> !final(self).dirty_blocks@[i],
            !final(self).dirty,
            final(self).generation == old(self).generation,
            final(self).flush_number == flush_number,
            final(self).flushed_generation == generation_number,
    {
        let n = self.dirty_blocks.len();
        let mut i: usize = 0;
        while i < n
            invariant
                i <= n,
                n == self.dirty_blocks@.len(),
                n == old(self).dirty_blocks@.len(),
                self.data == old(self).data,
                self.generation == old(self).generation,
                forall|j: int| 0 <= j < i ==> !self.dirty_blocks@[j],
            decreases n - i,
        {
            self.dirty_blocks.set(i, false);
            i += 1;
        }
        self.dirty = false;
        self.flush_number = flush_number;
        self.flushed_generation = generation_number;
    }

    /// The numbers that peers compare.
    pub fn meta(&self) -> (m: ExtentMeta)
        ensures
            m == self.meta_view(),
    {
        ExtentMeta {
            generation: self.generation,
            flush_number: self.flush_number,
            flushed_generation: self.flushed_generation,
            dirty: self.dirty,
        }
    }
}

/// Writing block `i` changes that block and no other.
pub proof fn lemma_splice_blocks(
    before: Seq<u8>,
    after: Seq<u8>,
    piece: Seq<u8>,
    bs: int,
    n: int,
    i: int,
    j: int,
)
    requires
        0 < bs,
        0 <= i < n,
        0 <= j < n,
        before.len() == n * bs,
        piece.len() == bs,
        after == splice(before, i * bs, piece),
    ensures
        j == i ==> after.subrange(j * bs, j * bs + bs) == piece,
        j != i ==> after.subrange(j * bs, j * bs + bs) == before.subrange(j * bs, j * bs + bs),
{
    lemma_block_span(i, n, bs);
    lemma_block_span(j, n, bs);
    if j == i {
        assert(after.subrange(j * bs, j * bs + bs) =~= piece);
    } else {
        if j < i {
            assert((j + 1) * bs <= i * bs) by (nonlinear_arith)
                requires
                    j + 1 <= i,
                    0 <= bs,
            ;
        } else {
            assert((i + 1) * bs <= j * bs) by (nonlinear_arith)
                requires
                    i + 1 <= j,
                    0 <= bs,
            ;
        }
        assert(after.subrange(j * bs, j * bs + bs) =~= before.subrange(j * bs, j * bs + bs));
    }
}

} // verus!
