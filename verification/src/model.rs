//! What a region is, as a mathematical value: its blocks, their dirty bits
//! and the numbers of its extents, with the changes that reads, writes and
//! flushes make to them.

use vstd::prelude::*;
use vstd::arithmetic::div_mod::{
    lemma_div_pos_is_pos, lemma_fundamental_div_mod, lemma_mod_pos_bound,
    lemma_multiply_divide_lt,
};
use crate::definition::RegionDefinition;
use crate::error::Error;
use crate::extent::ExtentMeta;
use crate::repair::{repair_coherent, RepairState};

verus! {

/// What a region holds, block by block and extent by extent.
pub struct RegionView {
    /// The definition the region was created with.
    pub def: RegionDefinition,
    /// The bytes of every block, by block number.
    pub blocks: Seq<Seq<u8>>,
    /// For every block, whether it was written since the last flush.
    pub dirty: Seq<bool>,
    /// For every extent, the epoch of its contents.
    pub generation: Seq<u64>,
    /// For every extent, the number of the last flush that covered it.
    pub flush_number: Seq<u64>,
    /// For every extent, the generation supplied with that flush.
    pub flushed_generation: Seq<u64>,
    /// Whether mutating operations are refused.
    pub read_only: bool,
    /// The repair that is under way, if any.
    pub repair: Option<RepairState>,
}

impl RegionView {
    /// The shape that every region has.
    pub open spec fn wf(self) -> bool {
        &&& self.def.valid()
        &&& self.blocks.len() == self.def.total_blocks()
        &&& self.dirty.len() == self.def.total_blocks()
        &&& forall|b: int|
            0 <= b < self.blocks.len() ==> (#[trigger] self.blocks[b]).len() == self.def.block_size
        &&& self.generation.len() == self.def.extent_count
        &&& self.flush_number.len() == self.def.extent_count
        &&& self.flushed_generation.len() == self.def.extent_count
        &&& repair_coherent(self.repair, self.generation)
    }

    /// A newly created region: every byte zero, nothing dirty, every
    /// generation and flush number zero, read-write, no repair under way.
    pub open spec fn fresh(def: RegionDefinition) -> RegionView {
        RegionView {
            def,
            blocks: Seq::new(
                def.total_blocks() as nat,
                |b: int| Seq::new(def.block_size as nat, |j: int| 0u8),
            ),
            dirty: Seq::new(def.total_blocks() as nat, |b: int| false),
            generation: Seq::new(def.extent_count as nat, |e: int| 0u64),
            flush_number: Seq::new(def.extent_count as nat, |e: int| 0u64),
            flushed_generation: Seq::new(def.extent_count as nat, |e: int| 0u64),
            read_only: false,
            repair: None,
        }
    }

    /// Whether the blocks `start .. start + count` all exist.
    pub open spec fn in_bounds(self, start: int, count: int) -> bool {
        0 <= start && 0 <= count && start + count <= self.def.total_blocks()
    }

    /// The bytes of the blocks `start .. start + count`, in block order.
    pub open spec fn read(self, start: int, count: int) -> Seq<u8>
        decreases count,
    {
        if count <= 0 {
            Seq::empty()
        } else {
            self.read(start, count - 1) + self.blocks[start + count - 1]
        }
    }

    /// Why a write is refused, if it is: a read-only region refuses every
    /// write that is not a repair write; otherwise the blocks must exist
    /// and `data` must fill them exactly.
    pub open spec fn write_error(
        self,
        start: int,
        count: int,
        data: Seq<u8>,
        is_repair_write: bool,
    ) -> Option<Error> {
        if self.read_only && !is_repair_write {
            Some(Error::ReadOnlyRegion)
        } else if !self.in_bounds(start, count) || data.len() != count * self.def.block_size {
            Some(Error::OutOfBounds)
        } else {
            None
        }
    }

    /// The region after `data` was written over the blocks
    /// `start .. start + count`: those blocks hold the data and are dirty,
    /// everything else is as before.
    pub open spec fn write(self, start: int, count: int, data: Seq<u8>) -> RegionView {
        let bs = self.def.block_size as int;
        RegionView {
            blocks: Seq::new(
                self.blocks.len(),
                |b: int|
                    if start <= b < start + count {
                        data.subrange((b - start) * bs, (b - start) * bs + bs)
                    } else {
                        self.blocks[b]
                    },
            ),
            dirty: Seq::new(self.dirty.len(), |b: int| self.dirty[b] || start <= b < start + count),
            ..self
        }
    }

    /// How many extents, counted from the first, a flush covers: all of
    /// them, or only those below `extent_limit`.
    pub open spec fn flush_span(self, extent_limit: Option<u32>) -> int {
        match extent_limit {
            Some(limit) => if limit < self.def.extent_count {
                limit as int
            } else {
                self.def.extent_count as int
            },
            None => self.def.extent_count as int,
        }
    }

    /// Why a flush of the first `span` extents is refused, if it is: a
    /// read-only region refuses it, and so does a region in which a covered
    /// extent already has a higher flush number.
    pub open spec fn flush_error(self, flush_number: u64, span: int) -> Option<Error> {
        if self.read_only {
            Some(Error::ReadOnlyRegion)
        } else if exists|e: int| 0 <= e < span && #[trigger] self.flush_number[e] > flush_number {
            Some(Error::CorruptMetadata)
        } else {
            None
        }
    }

    /// The region after a flush of the first `span` extents: their blocks
    /// are clean and they carry the new flush number and the generation
    /// that came with it. Contents and generations stay.
    pub open spec fn flush(self, flush_number: u64, generation_number: u64,
        span: int) -> RegionView {
        let es = self.def.extent_size as int;
        RegionView {
            dirty: Seq::new(self.dirty.len(), |b: int| self.dirty[b] && b >= span * es),
            flush_number: Seq::new(
                self.flush_number.len(),
                |e: int|
                    if e < span {
                        flush_number
                    } else {
                        self.flush_number[e]
                    },
            ),
            flushed_generation: Seq::new(
                self.flushed_generation.len(),
                |e: int|
                    if e < span {
                        generation_number
                    } else {
                        self.flushed_generation[e]
                    },
            ),
            ..self
        }
    }

    /// Why a region cannot be created, if it cannot: one exists already,
    /// the definition is malformed, or the import needs more blocks than
    /// the region has.
    pub open spec fn create_error(
        def: RegionDefinition,
        exists: bool,
        import: Option<Seq<u8>>,
    ) -> Option<Error> {
        if exists {
            Some(Error::AlreadyExists)
        } else if !def.valid() {
            Some(Error::InvalidDefinition)
        } else if import matches Some(data) && import_blocks(def, data.len()) > def.total_blocks() {
            Some(Error::InvalidDefinition)
        } else {
            None
        }
    }

    /// The region that creation yields: a fresh one, or, with an import,
    /// a fresh one into which the import was written block by block from
    /// block 0 on, the last block filled up with zeros, and which was then
    /// flushed with flush number 1 and generation 0.
    pub open spec fn created(def: RegionDefinition, import: Option<Seq<u8>>) -> RegionView {
        match import {
            Some(data) => RegionView::fresh(def).write(
                0,
                import_blocks(def, data.len()),
                fit(data, import_blocks(def, data.len()) * def.block_size),
            ).flush(1, 0, def.extent_count as int),
            None => RegionView::fresh(def),
        }
    }

    /// Why the region cannot grow to `extent_count` extents, if it cannot:
    /// it is read-only, a repair is under way, or it would shrink.
    pub open spec fn extend_error(self, extent_count: u32) -> Option<Error> {
        if self.read_only {
            Some(Error::ReadOnlyRegion)
        } else if self.repair is Some {
            Some(Error::RepairFailed)
        } else if extent_count < self.def.extent_count {
            Some(Error::InvalidDefinition)
        } else {
            None
        }
    }

    /// The region grown to `extent_count` extents. The extents it had are
    /// as they were. The new ones hold zeros and are clean, and each of
    /// their numbers is the highest that any extent had, so that the new
    /// extents agree with the old ones.
    pub open spec fn extended(self, extent_count: u32) -> RegionView {
        let def = self.def.with_extent_count(extent_count);
        RegionView {
            def,
            blocks: Seq::new(
                def.total_blocks() as nat,
                |b: int|
                    if b < self.blocks.len() {
                        self.blocks[b]
                    } else {
                        Seq::new(def.block_size as nat, |j: int| 0u8)
                    },
            ),
            dirty: Seq::new(def.total_blocks() as nat, |b: int| b < self.dirty.len()
                && self.dirty[b]),
            generation: Seq::new(
                extent_count as nat,
                |e: int|
                    if e < self.generation.len() {
                        self.generation[e]
                    } else {
                        max_of(self.generation)
                    },
            ),
            flush_number: Seq::new(
                extent_count as nat,
                |e: int|
                    if e < self.flush_number.len() {
                        self.flush_number[e]
                    } else {
                        max_of(self.flush_number)
                    },
            ),
            flushed_generation: Seq::new(
                extent_count as nat,
                |e: int|
                    if e < self.flushed_generation.len() {
                        self.flushed_generation[e]
                    } else {
                        max_of(self.flushed_generation)
                    },
            ),
            ..self
        }
    }

    /// Whether the extents agree on their numbers: an extent whose
    /// generation is not above another's has a flush number that is not
    /// above the other's either.
    pub open spec fn consistent(self) -> bool {
        numbers_consistent(self.generation, self.flush_number)
    }

    /// The region with another repair state.
    pub open spec fn with_repair(self, repair: Option<RepairState>) -> RegionView {
        RegionView { repair, ..self }
    }

    /// The region with another generation for extent `e`.
    pub open spec fn with_generation(self, e: int, generation: u64) -> RegionView {
        RegionView { generation: self.generation.update(e, generation), ..self }
    }

    /// Whether any block of extent `e` is dirty.
    pub open spec fn extent_dirty(self, e: int) -> bool {
        let es = self.def.extent_size as int;
        exists|b: int| e * es <= b < e * es + es && #[trigger] self.dirty[b]
    }

    /// The numbers of extent `e` that peers compare.
    pub open spec fn meta(self, e: int) -> ExtentMeta {
        ExtentMeta {
            generation: self.generation[e],
            flush_number: self.flush_number[e],
            flushed_generation: self.flushed_generation[e],
            dirty: self.extent_dirty(e),
        }
    }
}

/// Whether generations and flush numbers agree: wherever one generation is
/// not above another, neither is its flush number. In particular equal
/// generations have equal flush numbers.
pub open spec fn numbers_consistent(generation: Seq<u64>, flush_number: Seq<u64>) -> bool {
    forall|i: int, j: int|
        #![trigger generation[i], generation[j]]
        0 <= i < generation.len() && 0 <= j < generation.len() && generation[i] <= generation[j]
            ==> flush_number[i] <= flush_number[j]
}

/// The largest number in `s`, or zero when `s` is empty.
pub open spec fn max_of(s: Seq<u64>) -> u64
    decreases s.len(),
{
    if s.len() == 0 {
        0
    } else if s.last() > max_of(s.drop_last()) {
        s.last()
    } else {
        max_of(s.drop_last())
    }
}

/// No number in `s` is above `max_of(s)`.
pub proof fn lemma_max_of(s: Seq<u64>)
    ensures
        forall|i: int| 0 <= i < s.len() ==> s[i] <= max_of(s),
    decreases s.len(),
{
    if s.len() > 0 {
        lemma_max_of(s.drop_last());
        assert forall|i: int| 0 <= i < s.len() implies s[i] <= max_of(s) by {
            if i < s.len() - 1 {
                assert(s.drop_last()[i] == s[i]);
            }
        }
    }
}

/// Unless `s` is empty, `max_of(s)` is one of its numbers.
pub proof fn lemma_max_of_is_member(s: Seq<u64>)
    requires
        s.len() > 0,
    ensures
        exists|i: int| 0 <= i < s.len() && s[i] == max_of(s),
    decreases s.len(),
{
    if s.last() > max_of(s.drop_last()) || s.len() == 1 {
        assert(s[s.len() - 1] == max_of(s));
    } else {
        lemma_max_of_is_member(s.drop_last());
        let i = choose|i: int| 0 <= i < s.drop_last().len() && s.drop_last()[i] == max_of(
            s.drop_last(),
        );
        assert(s[i] == max_of(s));
    }
}

/// The number of blocks that an import of `len` bytes takes up: a last
/// block that the import does not fill counts as a block.
pub open spec fn import_blocks(def: RegionDefinition, len: nat) -> int {
    if len % (def.block_size as nat) == 0 {
        (len / (def.block_size as nat)) as int
    } else {
        (len / (def.block_size as nat)) as int + 1
    }
}

/// `data` cut or padded with zeros to `len` bytes.
pub open spec fn fit(data: Seq<u8>, len: int) -> Seq<u8> {
    Seq::new(
        len as nat,
        |p: int|
            if p < data.len() {
                data[p]
            } else {
                0u8
            },
    )
}

/// Where block `b` lies in a region of `count` extents of `es` blocks:
/// in extent `b / es`, at position `b % es`.
pub proof fn lemma_locate(b: int, es: int, count: int)
    requires
        0 < es,
        0 <= count,
        0 <= b < es * count,
    ensures
        0 <= b / es < count,
        0 <= b % es < es,
        b == es * (b / es) + b % es,
{
    lemma_fundamental_div_mod(b, es);
    lemma_mod_pos_bound(b, es);
    lemma_div_pos_is_pos(b, es);
    lemma_multiply_divide_lt(b, es, count);
}

/// Position `i` of extent `e` is block `e * es + i`, and no other.
pub proof fn lemma_locate_back(e: int, i: int, es: int, b: int)
    requires
        0 < es,
        0 <= e,
        0 <= i < es,
        0 <= b,
    ensures
        (b / es == e && b % es == i) <==> b == e * es + i,
{
    lemma_fundamental_div_mod(b, es);
    lemma_mod_pos_bound(b, es);
    if b == e * es + i {
        vstd::arithmetic::div_mod::lemma_fundamental_div_mod_converse(b, es, e, i);
    } else if b / es == e && b % es == i {
        assert(es * (b / es) == e * es) by (nonlinear_arith)
            requires
                b / es == e,
        ;
    }
}

/// Block `b` lies in one of the first `span` extents exactly when it is
/// below `span * es`.
pub proof fn lemma_extent_below(b: int, es: int, span: int)
    requires
        0 < es,
        0 <= span,
        0 <= b,
    ensures
        (b / es < span) <==> (b < span * es),
{
    lemma_fundamental_div_mod(b, es);
    lemma_mod_pos_bound(b, es);
    if b < span * es {
        assert(b < es * span) by (nonlinear_arith)
            requires
                b < span * es,
        ;
        lemma_multiply_divide_lt(b, es, span);
    }
    if b / es < span {
        assert(es * (b / es) + es <= span * es) by (nonlinear_arith)
            requires
                b / es + 1 <= span,
                0 < es,
        ;
    }
}

/// A write of no blocks changes nothing.
pub proof fn lemma_write_none(v: RegionView, start: int, data: Seq<u8>)
    requires
        v.wf(),
    ensures
        v.write(start, 0, data) == v,
{
    assert(v.write(start, 0, data).blocks =~= v.blocks);
    assert(v.write(start, 0, data).dirty =~= v.dirty);
}

/// Writing `k + 1` blocks is writing `k` blocks and then the next one.
pub proof fn lemma_write_extend(v: RegionView, start: int, k: int, data: Seq<u8>)
    requires
        v.wf(),
        0 <= k,
        k * v.def.block_size + v.def.block_size <= data.len(),
    ensures
        v.write(start, k + 1, data) == v.write(start, k, data).write(
            start + k,
            1,
            data.subrange(k * v.def.block_size, k * v.def.block_size + v.def.block_size),
        ),
{
    let bs = v.def.block_size as int;
    let piece = data.subrange(k * bs, k * bs + bs);
    let a = v.write(start, k + 1, data);
    let b = v.write(start, k, data).write(start + k, 1, piece);
    assert(a.dirty =~= b.dirty);
    assert(0 <= k * bs) by (nonlinear_arith)
        requires
            0 <= k,
            0 <= bs,
    ;
    assert forall|x: int| 0 <= x < a.blocks.len() implies a.blocks[x] == b.blocks[x] by {
        if x == start + k {
            assert((x - (start + k)) * bs == 0);
            assert((x - start) * bs == k * bs);
            assert(piece.subrange(0, bs) =~= piece);
        }
    }
    assert(a.blocks =~= b.blocks);
}

} // verus!
