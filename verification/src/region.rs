//! A region: an ordered collection of extents that share one definition,
//! addressed by a block number that runs through all of them.

use vstd::prelude::*;
use vstd::arithmetic::div_mod::{
    lemma_div_pos_is_pos, lemma_fundamental_div_mod, lemma_mod_pos_bound,
};
use crate::definition::{
    lemma_block_span, lemma_sizes_fit, lemma_total_blocks_fit, RegionDefinition, RegionOptions,
};
use crate::durability::{flush_steps, plan_flush, FlushStep};
use crate::error::Error;
use crate::extent::{has_set_bit, lemma_splice_blocks, splice, Extent, ExtentMeta};
use crate::model::{
    fit, import_blocks, lemma_extent_below, lemma_locate, lemma_locate_back, lemma_write_extend,
    lemma_write_none, max_of, numbers_consistent, RegionView,
};
use crate::repair::{repair_coherent, RepairState, RepairStep};

verus! {

/// What was read from storage for one region: its definition, its extents
/// and the record of an unfinished repair. Nothing is assumed of it.
#[derive(Debug)]
pub struct RegionImage {
    /// The stored definition.
    pub def: RegionDefinition,
    /// The stored extents, in order.
    pub extents: Vec<Extent>,
    /// The extent whose repair was under way when the image was taken.
    pub repair_record: Option<u32>,
}

impl RegionImage {
    /// The generations of the stored extents.
    pub open spec fn generations(&self) -> Seq<u64> {
        Seq::new(self.extents@.len(), |e: int| self.extents@[e].generation)
    }

    /// The flush numbers of the stored extents.
    pub open spec fn flush_numbers(&self) -> Seq<u64> {
        Seq::new(self.extents@.len(), |e: int| self.extents@[e].flush_number)
    }

    /// The metadata is well formed: one extent for each that the
    /// definition names, one dirty bit per block, each extent's flag
    /// mirroring its bits, and a repair record that names an extent.
    pub open spec fn metadata_ok(&self) -> bool {
        &&& self.extents@.len() == self.def.extent_count
        &&& forall|e: int|
            0 <= e < self.extents@.len() ==> (#[trigger] self.extents@[e]).meta_wf(self.def)
        &&& self.repair_record matches Some(x) ==> x < self.def.extent_count
    }

    /// Every extent holds exactly the blocks that the definition gives it.
    pub open spec fn sizes_ok(&self) -> bool {
        forall|e: int|
            0 <= e < self.extents@.len() ==> (#[trigger] self.extents@[e]).data@.len()
                == self.def.extent_bytes()
    }

    /// Why the image cannot be opened, if it cannot. The stored definition
    /// must be valid and agree with the options. The metadata must be well
    /// formed; with `verify`, every extent must have its full size; and
    /// unless a repair is on record, generations and flush numbers must
    /// agree across the extents.
    pub open spec fn open_error(&self, options: RegionOptions, verify: bool) -> Option<Error> {
        if !self.def.valid() {
            Some(Error::InvalidDefinition)
        } else if !options.admits(self.def) {
            Some(Error::DefinitionMismatch)
        } else if !self.metadata_ok() || (verify && !self.sizes_ok()) || (self.repair_record is None
            && !numbers_consistent(self.generations(), self.flush_numbers())) {
            Some(Error::CorruptMetadata)
        } else {
            None
        }
    }

    /// The region that opening yields. Data that is shorter than an extent
    /// reads as zeros beyond its end, data that is longer is cut. An extent
    /// with a repair on record is offline, its repair not yet begun.
    pub open spec fn opened(&self, read_only: bool) -> RegionView {
        let es = self.def.extent_size as int;
        let bs = self.def.block_size as int;
        RegionView {
            def: self.def,
            blocks: Seq::new(
                self.def.total_blocks() as nat,
                |b: int|
                    fit(self.extents@[b / es].data@, self.def.extent_bytes()).subrange(
                        (b % es) * bs,
                        (b % es) * bs + bs,
                    ),
            ),
            dirty: Seq::new(
                self.def.total_blocks() as nat,
                |b: int| self.extents@[b / es].dirty_blocks@[b % es],
            ),
            generation: self.generations(),
            flush_number: self.flush_numbers(),
            flushed_generation: Seq::new(
                self.extents@.len(),
                |e: int| self.extents@[e].flushed_generation,
            ),
            read_only,
            repair: match self.repair_record {
                Some(x) => Some(
                    RepairState {
                        extent: x,
                        step: RepairStep::Closed,
                        source: None,
                        prior_generation: self.extents@[x as int].generation,
                        attempts: 0,
                    },
                ),
                None => None,
            },
        }
    }
}

/// Whether the generations and flush numbers of the stored extents agree.
fn extents_consistent(image: &RegionImage) -> (ok: bool)
    ensures
        ok == numbers_consistent(image.generations(), image.flush_numbers()),
{
    let n = image.extents.len();
    let mut i: usize = 0;
    while i < n
        invariant
            i <= n,
            n == image.extents@.len(),
            forall|a: int, b: int|
                #![trigger image.generations()[a], image.generations()[b]]
                0 <= a < i && 0 <= b < n && image.generations()[a] <= image.generations()[b]
                    ==> image.flush_numbers()[a] <= image.flush_numbers()[b],
        decreases n - i,
    {
        let mut j: usize = 0;
        while j < n
            invariant
                i < n,
                j <= n,
                n == image.extents@.len(),
                forall|b: int|
                    #![trigger image.generations()[b]]
                    0 <= b < j && image.generations()[i as int] <= image.generations()[b]
                        ==> image.flush_numbers()[i as int] <= image.flush_numbers()[b],
            decreases n - j,
        {
            if image.extents[i].generation <= image.extents[j].generation
                && image.extents[i].flush_number > image.extents[j].flush_number {
                assert(image.generations()[i as int] <= image.generations()[j as int]);
                assert(image.flush_numbers()[i as int] > image.flush_numbers()[j as int]);
                return false;
            }
            j += 1;
        }
        i += 1;
    }
    true
}

/// A region in memory: its definition, its extents, and whether it may be
/// changed.
pub struct Region {
    def: RegionDefinition,
    extents: Vec<Extent>,
    read_only: bool,
    repair: Option<RepairState>,
}

impl View for Region {
    type V = RegionView;

    closed spec fn view(&self) -> RegionView {
        let es = self.def.extent_size as int;
        RegionView {
            def: self.def,
            blocks: Seq::new(
                self.def.total_blocks() as nat,
                |b: int| self.extents@[b / es].block(self.def, b % es),
            ),
            dirty: Seq::new(
                self.def.total_blocks() as nat,
                |b: int| self.extents@[b / es].dirty_blocks@[b % es],
            ),
            generation: Seq::new(self.extents@.len(), |e: int| self.extents@[e].generation),
            flush_number: Seq::new(self.extents@.len(), |e: int| self.extents@[e].flush_number),
            flushed_generation: Seq::new(
                self.extents@.len(),
                |e: int| self.extents@[e].flushed_generation,
            ),
            read_only: self.read_only,
            repair: self.repair,
        }
    }
}

impl Region {
    /// The invariant of a region: a valid definition, one well-formed
    /// extent for each extent it names, and a repair, if one is under way,
    /// that fits the generations of the extents.
    pub closed spec fn wf(&self) -> bool {
        &&& self.def.valid()
        &&& self.extents@.len() == self.def.extent_count
        &&& forall|e: int|
            0 <= e < self.extents@.len() ==> (#[trigger] self.extents@[e]).wf(self.def)
        &&& repair_coherent(self.repair, self@.generation)
    }

    /// A well-formed region has a well-formed view.
    pub proof fn lemma_view_wf(&self)
        requires
            self.wf(),
        ensures
            self@.wf(),
    {
        let es = self.def.extent_size as int;
        let bs = self.def.block_size as int;
        lemma_total_blocks_fit(self.def);
        assert forall|b: int| 0 <= b < self@.blocks.len() implies (#[trigger] self@.blocks[b]).len()
            == self.def.block_size by {
            lemma_locate(b, es, self.def.extent_count as int);
            assert(self.extents@[b / es].wf(self.def));
            lemma_block_span(b % es, es, bs);
        }
    }

    /// The definition of the region.
    pub fn def(&self) -> (d: RegionDefinition)
        ensures
            d == self@.def,
    {
        self.def
    }

    /// Whether mutating operations are refused.
    pub fn is_read_only(&self) -> (r: bool)
        ensures
            r == self@.read_only,
    {
        self.read_only
    }

    /// The repair that is under way, if any.
    pub fn repair(&self) -> (r: Option<RepairState>)
        ensures
            r == self@.repair,
    {
        self.repair
    }

    /// Creates a region. `exists` says whether one is already present at
    /// the place it is meant for. With an import, the bytes are written
    /// into the new region block by block from block 0 on, a last block
    /// that they do not fill is filled up with zeros, and the region is
    /// flushed once, with flush number 1 and generation 0.
    ///
    /// Fails with `AlreadyExists` when `exists` is set, else with
    /// `InvalidDefinition` when the definition is malformed or the import
    /// needs more blocks than the region has.
    pub fn create(def: RegionDefinition, exists: bool, import: Option<&Vec<u8>>) -> (r: Result<
        Region,
        Error,
    >)
        ensures
            match RegionView::create_error(
                def,
                exists,
                match import {
                    Some(data) => Some(data@),
                    None => None,
                },
            ) {
                Some(e) => r matches Err(x) && x == e,
                None => r matches Ok(region) && region.wf() && region@ == RegionView::created(
                    def,
                    match import {
                        Some(data) => Some(data@),
                        None => None,
                    },
                ),
            },
    {
        if exists {
            return Err(Error::AlreadyExists);
        }
        if !def.is_valid() {
            return Err(Error::InvalidDefinition);
        }
        let mut extents: Vec<Extent> = Vec::new();
        let mut e: u32 = 0;
        while e < def.extent_count
            invariant
                def.valid(),
                e <= def.extent_count,
                extents@.len() == e,
                forall|j: int|
                    0 <= j < e ==> {
                        &&& (#[trigger] extents@[j]).wf(def)
                        &&& extents@[j].generation == 0
                        &&& extents@[j].flush_number == 0
                        &&& extents@[j].flushed_generation == 0
                        &&& forall|p: int|
                            0 <= p < extents@[j].data@.len() ==> extents@[j].data@[p] == 0
                        &&& forall|i: int|
                            0 <= i < extents@[j].dirty_blocks@.len()
                                ==> !extents@[j].dirty_blocks@[i]
                    },
            decreases def.extent_count - e,
        {
            extents.push(Extent::new(&def));
            e += 1;
        }
        let mut region = Region { def, extents, read_only: false, repair: None };
        proof {
            lemma_fresh_view(region);
        }
        match import {
            Some(data) => {
                let len = data.len() as u64;
                let rem = len % def.block_size;
                proof {
                    let bs = def.block_size as int;
                    let q = len as int / bs;
                    lemma_fundamental_div_mod(len as int, bs);
                    lemma_div_pos_is_pos(len as int, bs);
                    assert(bs * q >= q) by (nonlinear_arith)
                        requires
                            bs >= 1,
                            q >= 0,
                    ;
                }
                let count = if rem == 0 {
                    len / def.block_size
                } else {
                    len / def.block_size + 1
                };
                proof {
                    lemma_fundamental_div_mod(len as int, def.block_size as int);
                    lemma_mod_pos_bound(len as int, def.block_size as int);
                    lemma_div_pos_is_pos(len as int, def.block_size as int);
                }
                if count > def.block_count() {
                    return Err(Error::InvalidDefinition);
                }
                let extra = if rem == 0 {
                    0
                } else {
                    def.block_size - rem
                };
                let mut padded: Vec<u8> = Vec::new();
                let mut i: usize = 0;
                while i < data.len()
                    invariant
                        i <= data.len(),
                        padded@ == data@.subrange(0, i as int),
                    decreases data.len() - i,
                {
                    padded.push(data[i]);
                    i += 1;
                }
                let mut j: u64 = 0;
                while j < extra
                    invariant
                        j <= extra,
                        padded@ == fit(data@, data@.len() + j),
                    decreases extra - j,
                {
                    padded.push(0);
                    j += 1;
                }
                proof {
                    let bs = def.block_size as int;
                    let q = len as int / bs;
                    assert(bs * q + bs == (q + 1) * bs) by (nonlinear_arith);
                    assert(bs * q == q * bs) by (nonlinear_arith);
                    assert(padded@.len() == count * bs);
                    assert(count == import_blocks(def, data@.len()));
                }
                let written = region.write(0, count, &padded, false);
                let flushed = region.flush(1, 0, None);
                assert(written is Ok);
                assert(flushed is Ok) by {
                    assert(forall|x: int|
                        0 <= x < def.extent_count ==> RegionView::fresh(def).flush_number[x] == 0);
                }
                Ok(region)
            },
            None => Ok(region),
        }
    }

    /// Opens a region from what was read from storage. The stored
    /// definition must be valid (`InvalidDefinition`) and agree with every
    /// option that is stated (`DefinitionMismatch`). The extent metadata
    /// must be well formed, and generations and flush numbers must agree
    /// across extents unless a repair is on record; with `verify`, every
    /// extent must also have its full size (`CorruptMetadata`). Without
    /// `verify` the size is not looked at: data beyond the end of an
    /// extent is dropped, and data that is missing reads as zeros.
    ///
    /// An extent with a repair on record comes up offline, with its repair
    /// to be started over.
    pub fn open(image: RegionImage, options: &RegionOptions, read_only: bool, verify: bool) -> (r:
        Result<Region, Error>)
        ensures
            match image.open_error(*options, verify) {
                Some(e) => r matches Err(x) && x == e,
                None => r matches Ok(region) && region.wf() && region@ == image.opened(read_only),
            },
    {
        let def = image.def;
        if !def.is_valid() {
            return Err(Error::InvalidDefinition);
        }
        if !options.accepts(&def) {
            return Err(Error::DefinitionMismatch);
        }
        proof {
            lemma_sizes_fit(def);
        }
        let n = image.extents.len();
        if n != def.extent_count as usize {
            return Err(Error::CorruptMetadata);
        }
        let len = def.extent_len();
        let mut e: usize = 0;
        while e < n
            invariant
                def.valid(),
                def == image.def,
                options.admits(def),
                n == image.extents@.len(),
                len == def.extent_bytes(),
                e <= n,
                forall|j: int| 0 <= j < e ==> (#[trigger] image.extents@[j]).meta_wf(def),
                verify ==> forall|j: int|
                    0 <= j < e ==> (#[trigger] image.extents@[j]).data@.len() == len,
            decreases n - e,
        {
            let extent = &image.extents[e];
            let bits_ok = extent.dirty_blocks.len() as u64 == def.extent_size && extent.dirty
                == has_set_bit(&extent.dirty_blocks);
            if !bits_ok {
                assert(!image.extents@[e as int].meta_wf(def));
                return Err(Error::CorruptMetadata);
            }
            if verify && extent.data.len() != len {
                assert(image.extents@[e as int].data@.len() != def.extent_bytes());
                return Err(Error::CorruptMetadata);
            }
            e += 1;
        }
        let repair = match image.repair_record {
            Some(x) => {
                if x >= def.extent_count {
                    return Err(Error::CorruptMetadata);
                }
                Some(
                    RepairState {
                        extent: x,
                        step: RepairStep::Closed,
                        source: None,
                        prior_generation: image.extents[x as usize].generation,
                        attempts: 0,
                    },
                )
            },
            None => {
                if !extents_consistent(&image) {
                    return Err(Error::CorruptMetadata);
                }
                None
            },
        };
        let ghost stored = image;
        let mut extents = image.extents;
        let mut e: usize = 0;
        while e < n
            invariant
                def.valid(),
                n == extents@.len(),
                n == stored.extents@.len(),
                len == def.extent_bytes(),
                e <= n,
                forall|j: int|
                    0 <= j < n ==> {
                        &&& (#[trigger] extents@[j]).dirty_blocks == stored.extents@[j].dirty_blocks
                        &&& extents@[j].dirty == stored.extents@[j].dirty
                        &&& extents@[j].generation == stored.extents@[j].generation
                        &&& extents@[j].flush_number == stored.extents@[j].flush_number
                        &&& extents@[j].flushed_generation == stored.extents@[j].flushed_generation
                    },
                forall|j: int|
                    0 <= j < e ==> (#[trigger] extents@[j]).data@ == fit(
                        stored.extents@[j].data@,
                        len as int,
                    ),
                forall|j: int| e <= j < n ==> (#[trigger] extents@[j]).data
                    == stored.extents@[j].data,
            decreases n - e,
        {
            extents[e].data.resize(len, 0);
            proof {
                assert(extents@[e as int].data@ =~= fit(stored.extents@[e as int].data@,
                    len as int));
            }
            e += 1;
        }
        let region = Region { def, extents, read_only, repair };
        proof {
            lemma_opened_view(stored, region, read_only);
        }
        Ok(region)
    }

    /// Number of extents.
    pub fn extent_count(&self) -> (n: u32)
        ensures
            n == self@.def.extent_count,
    {
        self.def.extent_count
    }

    /// The numbers of extent `e` that peers compare, or nothing when the
    /// region has no such extent.
    pub fn extent_meta(&self, e: u32) -> (m: Option<ExtentMeta>)
        requires
            self.wf(),
        ensures
            e < self@.def.extent_count ==> m == Some(self@.meta(e as int)),
            e >= self@.def.extent_count ==> m is None,
    {
        if e >= self.def.extent_count {
            return None;
        }
        proof {
            self.lemma_extent_dirty(e as int);
        }
        Some(self.extents[e as usize].meta())
    }

    /// The numbers of every extent, in order: what peers compare to find
    /// out which replica of an extent is the authoritative one.
    pub fn metadata(&self) -> (all: Vec<ExtentMeta>)
        requires
            self.wf(),
        ensures
            all@.len() == self@.def.extent_count,
            forall|e: int| 0 <= e < all@.len() ==> all@[e] == self@.meta(e),
    {
        let mut all: Vec<ExtentMeta> = Vec::new();
        let mut e: usize = 0;
        while e < self.extents.len()
            invariant
                self.wf(),
                e <= self.extents@.len(),
                all@.len() == e,
                forall|x: int| 0 <= x < e ==> all@[x] == self@.meta(x),
            decreases self.extents@.len() - e,
        {
            proof {
                self.lemma_extent_dirty(e as int);
            }
            all.push(self.extents[e].meta());
            e += 1;
        }
        all
    }

    /// The highest generation, flush number and flushed generation of any
    /// extent.
    fn highest_numbers(&self) -> (m: (u64, u64, u64))
        requires
            self.wf(),
        ensures
            m.0 == max_of(self@.generation),
            m.1 == max_of(self@.flush_number),
            m.2 == max_of(self@.flushed_generation),
    {
        let mut generation: u64 = 0;
        let mut flushed: u64 = 0;
        let mut e: usize = 0;
        proof {
            assert(self@.generation.subrange(0, 0) =~= Seq::<u64>::empty());
            assert(self@.flushed_generation.subrange(0, 0) =~= Seq::<u64>::empty());
        }
        while e < self.extents.len()
            invariant
                e <= self.extents@.len(),
                generation == max_of(self@.generation.subrange(0, e as int)),
                flushed == max_of(self@.flushed_generation.subrange(0, e as int)),
            decreases self.extents@.len() - e,
        {
            proof {
                let g = self@.generation.subrange(0, e + 1);
                assert(g.drop_last() =~= self@.generation.subrange(0, e as int));
                assert(g.last() == self.extents@[e as int].generation);
                let f = self@.flushed_generation.subrange(0, e + 1);
                assert(f.drop_last() =~= self@.flushed_generation.subrange(0, e as int));
                assert(f.last() == self.extents@[e as int].flushed_generation);
            }
            if self.extents[e].generation > generation {
                generation = self.extents[e].generation;
            }
            if self.extents[e].flushed_generation > flushed {
                flushed = self.extents[e].flushed_generation;
            }
            e += 1;
        }
        proof {
            assert(self@.generation.subrange(0, e as int) =~= self@.generation);
            assert(self@.flushed_generation.subrange(0, e as int) =~= self@.flushed_generation);
        }
        (generation, self.max_flush_number(), flushed)
    }

    /// Grows the region to `extent_count` extents. The extents it has stay
    /// as they are; the new ones hold zeros, are clean, and take for each
    /// of their numbers the highest that any extent has. A region never
    /// shrinks: a lower count is refused with `InvalidDefinition`. A
    /// read-only region refuses with `ReadOnlyRegion`, and while a repair
    /// is under way the region keeps its shape: `RepairFailed`. A refused
    /// call changes nothing.
    pub fn extend(&mut self, extent_count: u32) -> (r: Result<(), Error>)
        requires
            old(self).wf(),
        ensures
            final(self).wf(),
            match old(self)@.extend_error(extent_count) {
                Some(e) => r == Err::<(), Error>(e) && final(self)@ == old(self)@,
                None => r is Ok && final(self)@ == old(self)@.extended(extent_count),
            },
    {
        if self.read_only {
            return Err(Error::ReadOnlyRegion);
        }
        if self.repair.is_some() {
            return Err(Error::RepairFailed);
        }
        if extent_count < self.def.extent_count {
            return Err(Error::InvalidDefinition);
        }
        let (generation, flush_number, flushed_generation) = self.highest_numbers();
        let def = self.def;
        let mut e: u32 = def.extent_count;
        while e < extent_count
            invariant
                def.valid(),
                old(self).wf(),
                def == old(self).def,
                self.def == def,
                self.read_only == old(self).read_only,
                self.repair == old(self).repair,
                def.extent_count <= e <= extent_count,
                self.extents@.len() == e,
                forall|j: int|
                    0 <= j < def.extent_count ==> #[trigger] self.extents@[j] == old(
                        self,
                    ).extents@[j],
                forall|j: int|
                    def.extent_count <= j < e ==> {
                        &&& (#[trigger] self.extents@[j]).wf(def)
                        &&& self.extents@[j].generation == generation
                        &&& self.extents@[j].flush_number == flush_number
                        &&& self.extents@[j].flushed_generation == flushed_generation
                        &&& forall|p: int|
                            0 <= p < self.extents@[j].data@.len() ==> self.extents@[j].data@[p]
                                == 0
                        &&& forall|i: int|
                            0 <= i < self.extents@[j].dirty_blocks@.len()
                                ==> !self.extents@[j].dirty_blocks@[i]
                    },
            decreases extent_count - e,
        {
            let mut extent = Extent::new(&def);
            extent.generation = generation;
            extent.flush_number = flush_number;
            extent.flushed_generation = flushed_generation;
            self.extents.push(extent);
            e += 1;
        }
        self.def.extent_count = extent_count;
        proof {
            lemma_extended_view(*old(self), *self, extent_count);
        }
        Ok(())
    }

    /// The dirty bits of the blocks of extent `e`, in block order, or
    /// nothing when the region has no such extent.
    pub fn dirty_bits(&self, e: u32) -> (r: Option<Vec<bool>>)
        requires
            self.wf(),
        ensures
            e >= self@.def.extent_count ==> r is None,
            e < self@.def.extent_count ==> {
                &&& r matches Some(bits)
                &&& bits@.len() == self@.def.extent_size
                &&& forall|i: int|
                    0 <= i < self@.def.extent_size ==> bits@[i] == self@.dirty[e
                        * self@.def.extent_size + i]
            },
    {
        if e >= self.def.extent_count {
            return None;
        }
        let extent = &self.extents[e as usize];
        assert(extent.wf(self.def));
        let mut bits: Vec<bool> = Vec::new();
        let mut i: usize = 0;
        while i < extent.dirty_blocks.len()
            invariant
                i <= extent.dirty_blocks@.len(),
                bits@ == extent.dirty_blocks@.subrange(0, i as int),
            decreases extent.dirty_blocks@.len() - i,
        {
            bits.push(extent.dirty_blocks[i]);
            i += 1;
        }
        proof {
            let es = self.def.extent_size as int;
            lemma_total_blocks_fit(self.def);
            assert(e * es + es <= es * self.def.extent_count) by (nonlinear_arith)
                requires
                    0 <= e < self.def.extent_count,
                    0 < es,
            ;
            assert(0 <= e * es) by (nonlinear_arith)
                requires
                    0 <= e,
                    0 < es,
            ;
            assert forall|i: int| 0 <= i < es implies bits@[i] == self@.dirty[e * es + i] by {
                lemma_locate_back(e as int, i, es, e * es + i);
            }
        }
        Some(bits)
    }

    /// The highest flush number of any extent, or zero when there is none.
    pub fn max_flush_number(&self) -> (m: u64)
        requires
            self.wf(),
        ensures
            m == max_of(self@.flush_number),
    {
        let mut m: u64 = 0;
        let mut e: usize = 0;
        proof {
            assert(self@.flush_number.subrange(0, 0) =~= Seq::<u64>::empty());
        }
        while e < self.extents.len()
            invariant
                e <= self.extents@.len(),
                m == max_of(self@.flush_number.subrange(0, e as int)),
            decreases self.extents@.len() - e,
        {
            proof {
                let next = self@.flush_number.subrange(0, e + 1);
                assert(next.drop_last() =~= self@.flush_number.subrange(0, e as int));
                assert(next.last() == self.extents@[e as int].flush_number);
            }
            if self.extents[e].flush_number > m {
                m = self.extents[e].flush_number;
            }
            e += 1;
        }
        proof {
            assert(self@.flush_number.subrange(0, e as int) =~= self@.flush_number);
        }
        m
    }

    /// Replaces the repair state.
    pub(crate) fn set_repair(&mut self, repair: Option<RepairState>)
        requires
            old(self).wf(),
            repair_coherent(repair, old(self)@.generation),
        ensures
            final(self).wf(),
            final(self)@ == old(self)@.with_repair(repair),
    {
        self.repair = repair;
        proof {
            assert(self@.generation =~= old(self)@.generation);
            assert(self@.blocks =~= old(self)@.blocks);
            assert(self@.dirty =~= old(self)@.dirty);
            assert(self@.flush_number =~= old(self)@.flush_number);
            assert(self@.flushed_generation =~= old(self)@.flushed_generation);
        }
    }

    /// Raises the generation of extent `e`.
    pub(crate) fn set_generation(&mut self, e: u32, generation: u64)
        requires
            old(self).wf(),
            e < old(self)@.def.extent_count,
            generation >= old(self)@.generation[e as int],
        ensures
            final(self).wf(),
            final(self)@ == old(self)@.with_generation(e as int, generation),
    {
        let ghost pre = *self;
        self.extents[e as usize].generation = generation;
        proof {
            assert forall|j: int| 0 <= j < self.extents@.len()
                implies (#[trigger] self.extents@[j]).wf(
                self.def,
            ) by {
                assert(pre.extents@[j].wf(pre.def));
            }
            lemma_total_blocks_fit(self.def);
            let target = pre@.with_generation(e as int, generation);
            assert(self@.generation =~= target.generation);
            assert forall|x: int| 0 <= x < self@.blocks.len() implies self@.blocks[x]
                == target.blocks[x] && self@.dirty[x] == target.dirty[x] by {
                lemma_locate(x, self.def.extent_size as int, self.def.extent_count as int);
            }
            assert(self@.blocks =~= target.blocks);
            assert(self@.dirty =~= target.dirty);
            assert(self@.flush_number =~= target.flush_number);
            assert(self@.flushed_generation =~= target.flushed_generation);
        }
    }

    /// The extent-level dirty flag says whether any block of the extent is
    /// dirty.
    proof fn lemma_extent_dirty(&self, e: int)
        requires
            self.wf(),
            0 <= e < self.def.extent_count,
        ensures
            self.extents@[e].dirty == self@.extent_dirty(e),
            self.extents@[e].meta_view() == self@.meta(e),
    {
        let es = self.def.extent_size as int;
        let ext = self.extents@[e];
        lemma_total_blocks_fit(self.def);
        assert(ext.wf(self.def));
        assert(e * es + es <= es * self.def.extent_count) by (nonlinear_arith)
            requires
                0 <= e < self.def.extent_count,
                0 < es,
        ;
        assert(0 <= e * es) by (nonlinear_arith)
            requires
                0 <= e,
                0 < es,
        ;
        if ext.dirty {
            let i = choose|i: int| 0 <= i < ext.dirty_blocks@.len() && ext.dirty_blocks@[i];
            lemma_locate_back(e, i, es, e * es + i);
            assert(self@.dirty[e * es + i]);
        }
        if self@.extent_dirty(e) {
            let b = choose|b: int| e * es <= b < e * es + es && #[trigger] self@.dirty[b];
            lemma_locate_back(e, b - e * es, es, b);
            assert(ext.dirty_blocks@[b - e * es]);
        }
    }

    /// The extent that holds block `b` and the block's position in it, or
    /// nothing when the region has no such block.
    pub fn locate(&self, b: u64) -> (r: Option<(u32, u64)>)
        requires
            self.wf(),
        ensures
            match r {
                Some((e, i)) => {
                    &&& b < self@.def.total_blocks()
                    &&& e < self@.def.extent_count
                    &&& i < self@.def.extent_size
                    &&& b == e * self@.def.extent_size + i
                },
                None => b >= self@.def.total_blocks(),
            },
    {
        let total = self.def.block_count();
        if b >= total {
            return None;
        }
        proof {
            lemma_locate(b as int, self.def.extent_size as int, self.def.extent_count as int);
            assert(self.def.extent_size * (b as int / self.def.extent_size as int) == (b as int
                / self.def.extent_size as int) * self.def.extent_size) by (nonlinear_arith);
        }
        Some(((b / self.def.extent_size) as u32, b % self.def.extent_size))
    }

    /// Reads the blocks `start .. start + count` into one buffer, in block
    /// order. Fails with `OutOfBounds`, and only then, when the region
    /// lacks one of the blocks.
    pub fn read(&self, start: u64, count: u64) -> (r: Result<Vec<u8>, Error>)
        requires
            self.wf(),
        ensures
            match r {
                Ok(bytes) => self@.in_bounds(start as int, count as int) && bytes@ == self@.read(
                    start as int,
                    count as int,
                ),
                Err(e) => e == Error::OutOfBounds && !self@.in_bounds(start as int, count as int),
            },
    {
        let total = self.def.block_count();
        if start > total || count > total - start {
            return Err(Error::OutOfBounds);
        }
        let es = self.def.extent_size;
        let mut out: Vec<u8> = Vec::new();
        let mut k: u64 = 0;
        while k < count
            invariant
                self.wf(),
                k <= count,
                start + count <= total,
                total == self.def.total_blocks(),
                es == self.def.extent_size,
                out@ == self@.read(start as int, k as int),
            decreases count - k,
        {
            let b = start + k;
            proof {
                lemma_locate(b as int, es as int, self.def.extent_count as int);
                assert(self.extents@[b as int / es as int].wf(self.def));
            }
            let e = (b / es) as usize;
            let i = b % es;
            self.extents[e].read_block(&self.def, i, &mut out);
            k += 1;
        }
        Ok(out)
    }

    /// Writes `data` over the blocks `start .. start + count` and marks
    /// them dirty. A read-only region refuses the write with
    /// `ReadOnlyRegion` unless it is a repair write; blocks that the region
    /// lacks, or data that does not fill the blocks exactly, give
    /// `OutOfBounds`. A refused write changes nothing.
    pub fn write(&mut self, start: u64, count: u64, data: &Vec<u8>, is_repair_write: bool) -> (r:
        Result<(), Error>)
        requires
            old(self).wf(),
        ensures
            final(self).wf(),
            match old(self)@.write_error(start as int, count as int, data@, is_repair_write) {
                Some(e) => r == Err::<(), Error>(e) && final(self)@ == old(self)@,
                None => r is Ok && final(self)@ == old(self)@.write(
                    start as int,
                    count as int,
                    data@,
                ),
            },
    {
        if self.read_only && !is_repair_write {
            return Err(Error::ReadOnlyRegion);
        }
        let def = self.def;
        let total = def.block_count();
        if start > total || count > total - start {
            return Err(Error::OutOfBounds);
        }
        let given = data.len() as u64;
        let len = match count.checked_mul(def.block_size) {
            Some(len) => len,
            None => {
                return Err(Error::OutOfBounds);
            },
        };
        if given != len {
            return Err(Error::OutOfBounds);
        }
        proof {
            lemma_sizes_fit(def);
            self.lemma_view_wf();
            lemma_write_none(old(self)@, start as int, data@);
        }
        let es = def.extent_size;
        let bs = def.block_size;
        let mut k: u64 = 0;
        while k < count
            invariant
                self.wf(),
                old(self).wf(),
                def == self.def,
                def == old(self).def,
                self.read_only == old(self).read_only,
                self.repair == old(self).repair,
                k <= count,
                start + count <= total,
                total == def.total_blocks(),
                es == def.extent_size,
                bs == def.block_size,
                data.len() == count * bs,
                old(self)@.wf(),
                self@ == old(self)@.write(start as int, k as int, data@),
            decreases count - k,
        {
            let b = start + k;
            let ghost pre = *self;
            proof {
                lemma_locate(b as int, es as int, def.extent_count as int);
                assert(self.extents@[b as int / es as int].wf(def));
                lemma_block_span(k as int, count as int, bs as int);
            }
            let e = (b / es) as usize;
            let i = b % es;
            let off = (k * bs) as usize;
            self.extents[e].write_block(&def, i, data, off);
            proof {
                lemma_write_step(pre, *self, b as int, data@.subrange(off as int, off + bs));
                lemma_write_extend(old(self)@, start as int, k as int, data@);
            }
            k += 1;
        }
        Ok(())
    }

    /// Flushes every extent, or only those below `extent_limit`: their
    /// dirty bits are cleared and they take the flush number and the
    /// generation that came with it. The result lists the storage steps
    /// that make the flush durable, in the order in which they must be
    /// carried out. A read-only region refuses the flush with
    /// `ReadOnlyRegion`; a flush number below one that a covered extent
    /// already has is refused with `CorruptMetadata`. A refused flush
    /// changes nothing.
    pub fn flush(&mut self, flush_number: u64, generation_number: u64,
        extent_limit: Option<u32>) -> (r:
        Result<Vec<FlushStep>, Error>)
        requires
            old(self).wf(),
        ensures
            final(self).wf(),
            match old(self)@.flush_error(flush_number, old(self)@.flush_span(extent_limit)) {
                Some(e) => r == Err::<Vec<FlushStep>, Error>(e) && final(self)@ == old(self)@,
                None => {
                    &&& r matches Ok(plan)
                    &&& plan@ == flush_steps(
                        old(self)@.flush_span(extent_limit),
                        flush_number,
                        generation_number,
                    )
                    &&& final(self)@ == old(self)@.flush(
                        flush_number,
                        generation_number,
                        old(self)@.flush_span(extent_limit),
                    )
                },
            },
    {
        if self.read_only {
            return Err(Error::ReadOnlyRegion);
        }
        let def = self.def;
        let span: u32 = match extent_limit {
            Some(limit) => if limit < def.extent_count {
                limit
            } else {
                def.extent_count
            },
            None => def.extent_count,
        };
        let mut e: u32 = 0;
        while e < span
            invariant
                self.wf(),
                *self == *old(self),
                def == self.def,
                !self.read_only,
                span == self@.flush_span(extent_limit),
                e <= span <= def.extent_count,
                forall|j: int| 0 <= j < e ==> (#[trigger] self@.flush_number[j]) <= flush_number,
            decreases span - e,
        {
            if self.extents[e as usize].flush_number > flush_number {
                assert(self@.flush_number[e as int] > flush_number);
                return Err(Error::CorruptMetadata);
            }
            e += 1;
        }
        let mut e: u32 = 0;
        while e < span
            invariant
                self.wf(),
                old(self).wf(),
                def == self.def,
                def == old(self).def,
                self.read_only == old(self).read_only,
                self.repair == old(self).repair,
                e <= span <= def.extent_count,
                forall|j: int|
                    e <= j < def.extent_count ==> (#[trigger] self.extents@[j])
                        == old(self).extents@[j],
                forall|j: int|
                    0 <= j < e ==> {
                        &&& (#[trigger] self.extents@[j]).data == old(self).extents@[j].data
                        &&& self.extents@[j].generation == old(self).extents@[j].generation
                        &&& self.extents@[j].flush_number == flush_number
                        &&& self.extents@[j].flushed_generation == generation_number
                        &&& forall|i: int|
                            0 <= i < def.extent_size
                                ==> !(#[trigger] self.extents@[j].dirty_blocks@[i])
                    },
            decreases span - e,
        {
            self.extents[e as usize].flush(&def, flush_number, generation_number);
            e += 1;
        }
        proof {
            lemma_flush_view(*old(self), *self, flush_number, generation_number, span as int);
        }
        Ok(plan_flush(span, flush_number, generation_number))
    }
}

/// A region whose extents are all fresh is a fresh region.
proof fn lemma_fresh_view(region: Region)
    requires
        region.def.valid(),
        region.extents@.len() == region.def.extent_count,
        !region.read_only,
        region.repair is None,
        forall|j: int|
            0 <= j < region.extents@.len() ==> {
                &&& (#[trigger] region.extents@[j]).wf(region.def)
                &&& region.extents@[j].generation == 0
                &&& region.extents@[j].flush_number == 0
                &&& region.extents@[j].flushed_generation == 0
                &&& forall|p: int|
                    0 <= p < region.extents@[j].data@.len() ==> region.extents@[j].data@[p] == 0
                &&& forall|i: int|
                    0 <= i < region.extents@[j].dirty_blocks@.len()
                        ==> !region.extents@[j].dirty_blocks@[i]
            },
    ensures
        region.wf(),
        region@ == RegionView::fresh(region.def),
{
    let def = region.def;
    let es = def.extent_size as int;
    let bs = def.block_size as int;
    let target = RegionView::fresh(def);
    lemma_total_blocks_fit(def);
    assert forall|x: int| 0 <= x < region@.blocks.len() implies region@.blocks[x]
        == target.blocks[x] && region@.dirty[x] == target.dirty[x] by {
        lemma_locate(x, es, def.extent_count as int);
        lemma_block_span(x % es, es, bs);
        assert(region.extents@[x / es].wf(def));
        assert(region@.blocks[x] =~= target.blocks[x]);
    }
    assert(region@.blocks =~= target.blocks);
    assert(region@.dirty =~= target.dirty);
    assert(region@.generation =~= target.generation);
    assert(region@.flush_number =~= target.flush_number);
    assert(region@.flushed_generation =~= target.flushed_generation);
}

/// A region built from an image whose extents were fitted to size is the
/// region that opening the image yields.
proof fn lemma_opened_view(image: RegionImage, region: Region, read_only: bool)
    requires
        image.def.valid(),
        image.metadata_ok(),
        region.def == image.def,
        region.read_only == read_only,
        region.repair == image.opened(read_only).repair,
        region.extents@.len() == image.extents@.len(),
        forall|j: int|
            0 <= j < image.extents@.len() ==> {
                &&& (#[trigger] region.extents@[j]).dirty_blocks == image.extents@[j].dirty_blocks
                &&& region.extents@[j].dirty == image.extents@[j].dirty
                &&& region.extents@[j].generation == image.extents@[j].generation
                &&& region.extents@[j].flush_number == image.extents@[j].flush_number
                &&& region.extents@[j].flushed_generation == image.extents@[j].flushed_generation
                &&& region.extents@[j].data@ == fit(
                    image.extents@[j].data@,
                    image.def.extent_bytes(),
                )
            },
    ensures
        region.wf(),
        region@ == image.opened(read_only),
{
    let def = image.def;
    let es = def.extent_size as int;
    let target = image.opened(read_only);
    lemma_total_blocks_fit(def);
    assert forall|j: int| 0 <= j < region.extents@.len() implies (#[trigger] region.extents@[j]).wf(
        def,
    ) by {
        assert(image.extents@[j].meta_wf(def));
    }
    assert forall|x: int| 0 <= x < region@.blocks.len() implies region@.blocks[x]
        == target.blocks[x] && region@.dirty[x] == target.dirty[x] by {
        lemma_locate(x, es, def.extent_count as int);
    }
    assert(region@.blocks =~= target.blocks);
    assert(region@.dirty =~= target.dirty);
    assert(region@.generation =~= target.generation);
    assert(region@.flush_number =~= target.flush_number);
    assert(region@.flushed_generation =~= target.flushed_generation);
}

/// A region to which extents were added, fresh but for their numbers, is
/// the region grown.
proof fn lemma_extended_view(pre: Region, post: Region, extent_count: u32)
    requires
        pre.wf(),
        pre.repair is None,
        pre.def.extent_count <= extent_count,
        post.def == pre.def.with_extent_count(extent_count),
        post.read_only == pre.read_only,
        post.repair == pre.repair,
        post.extents@.len() == extent_count,
        forall|j: int|
            0 <= j < pre.def.extent_count ==> #[trigger] post.extents@[j] == pre.extents@[j],
        forall|j: int|
            pre.def.extent_count <= j < extent_count ==> {
                &&& (#[trigger] post.extents@[j]).wf(pre.def)
                &&& post.extents@[j].generation == max_of(pre@.generation)
                &&& post.extents@[j].flush_number == max_of(pre@.flush_number)
                &&& post.extents@[j].flushed_generation == max_of(pre@.flushed_generation)
                &&& forall|p: int|
                    0 <= p < post.extents@[j].data@.len() ==> post.extents@[j].data@[p] == 0
                &&& forall|i: int|
                    0 <= i < post.extents@[j].dirty_blocks@.len()
                        ==> !post.extents@[j].dirty_blocks@[i]
            },
    ensures
        post.wf(),
        post@ == pre@.extended(extent_count),
{
    let def = post.def;
    let es = def.extent_size as int;
    let bs = def.block_size as int;
    let target = pre@.extended(extent_count);
    lemma_total_blocks_fit(def);
    lemma_total_blocks_fit(pre.def);
    assert forall|j: int| 0 <= j < post.extents@.len() implies (#[trigger] post.extents@[j]).wf(
        def,
    ) by {
        if j < pre.def.extent_count {
            assert(pre.extents@[j].wf(pre.def));
        }
    }
    assert(pre.def.extent_count * es == es * pre.def.extent_count) by (nonlinear_arith);
    assert forall|x: int| 0 <= x < post@.blocks.len() implies post@.blocks[x]
        == target.blocks[x] && post@.dirty[x] == target.dirty[x] by {
        lemma_locate(x, es, extent_count as int);
        lemma_extent_below(x, es, pre.def.extent_count as int);
        lemma_block_span(x % es, es, bs);
        assert(post.extents@[x / es].wf(def));
        if x / es >= pre.def.extent_count {
            assert(post@.blocks[x] =~= target.blocks[x]);
        }
    }
    assert(post@.blocks =~= target.blocks);
    assert(post@.dirty =~= target.dirty);
    assert(post@.generation =~= target.generation);
    assert(post@.flush_number =~= target.flush_number);
    assert(post@.flushed_generation =~= target.flushed_generation);
}

/// What the region holds after one block of one extent was overwritten.
proof fn lemma_write_step(pre: Region, post: Region, b: int, piece: Seq<u8>)
    requires
        pre.wf(),
        0 <= b < pre.def.total_blocks(),
        piece.len() == pre.def.block_size,
        post.def == pre.def,
        post.read_only == pre.read_only,
        post.repair == pre.repair,
        post.extents@.len() == pre.extents@.len(),
        forall|j: int|
            0 <= j < pre.extents@.len() && j != b / (pre.def.extent_size as int)
                ==> #[trigger] post.extents@[j] == pre.extents@[j],
        ({
            let e = b / (pre.def.extent_size as int);
            let i = b % (pre.def.extent_size as int);
            &&& post.extents@[e].wf(pre.def)
            &&& post.extents@[e].data@ == splice(
                pre.extents@[e].data@,
                i * pre.def.block_size,
                piece,
            )
            &&& post.extents@[e].dirty_blocks@ == pre.extents@[e].dirty_blocks@.update(i, true)
            &&& post.extents@[e].generation == pre.extents@[e].generation
            &&& post.extents@[e].flush_number == pre.extents@[e].flush_number
            &&& post.extents@[e].flushed_generation == pre.extents@[e].flushed_generation
        }),
    ensures
        post.wf(),
        post@ == pre@.write(b, 1, piece),
{
    let def = pre.def;
    let es = def.extent_size as int;
    let bs = def.block_size as int;
    let e = b / es;
    let i = b % es;
    lemma_total_blocks_fit(def);
    lemma_locate(b, es, def.extent_count as int);
    assert(pre.extents@[e].wf(def));
    assert forall|j: int| 0 <= j < post.extents@.len() implies (#[trigger] post.extents@[j]).wf(
        def,
    ) by {
        if j != e {
            assert(pre.extents@[j].wf(def));
        }
    }
    let target = pre@.write(b, 1, piece);
    assert forall|x: int| 0 <= x < post@.blocks.len() implies post@.blocks[x]
        == target.blocks[x] by {
        lemma_locate(x, es, def.extent_count as int);
        lemma_locate_back(e, i, es, x);
        assert(es * e == e * es) by (nonlinear_arith);
        if x / es == e {
            lemma_splice_blocks(
                pre.extents@[e].data@,
                post.extents@[e].data@,
                piece,
                bs,
                es,
                i,
                x % es,
            );
            assert(es * bs == def.extent_bytes()) by (nonlinear_arith)
                requires
                    es == def.extent_size,
                    bs == def.block_size,
            ;
            if x == b {
                assert(piece.subrange(0, bs) =~= piece);
            }
        }
    }
    assert(post@.blocks =~= target.blocks);
    assert forall|x: int| 0 <= x < post@.dirty.len() implies post@.dirty[x] == target.dirty[x] by {
        lemma_locate(x, es, def.extent_count as int);
        lemma_locate_back(e, i, es, x);
        assert(es * e == e * es) by (nonlinear_arith);
    }
    assert(post@.dirty =~= target.dirty);
    assert(post@.generation =~= target.generation);
    assert(post@.flush_number =~= target.flush_number);
    assert(post@.flushed_generation =~= target.flushed_generation);
}

/// What the region holds after the first `span` extents were flushed.
proof fn lemma_flush_view(
    pre: Region,
    post: Region,
    flush_number: u64,
    generation_number: u64,
    span: int,
)
    requires
        pre.wf(),
        post.wf(),
        post.def == pre.def,
        post.read_only == pre.read_only,
        post.repair == pre.repair,
        0 <= span <= pre.def.extent_count,
        forall|j: int|
            span <= j < pre.def.extent_count ==> (#[trigger] post.extents@[j]) == pre.extents@[j],
        forall|j: int|
            0 <= j < span ==> {
                &&& (#[trigger] post.extents@[j]).data == pre.extents@[j].data
                &&& post.extents@[j].generation == pre.extents@[j].generation
                &&& post.extents@[j].flush_number == flush_number
                &&& post.extents@[j].flushed_generation == generation_number
                &&& forall|i: int|
                    0 <= i < pre.def.extent_size ==> !(#[trigger] post.extents@[j].dirty_blocks@[i])
            },
    ensures
        post@ == pre@.flush(flush_number, generation_number, span),
{
    let def = pre.def;
    let es = def.extent_size as int;
    let target = pre@.flush(flush_number, generation_number, span);
    lemma_total_blocks_fit(def);
    assert forall|x: int| 0 <= x < post@.blocks.len() implies post@.blocks[x]
        == target.blocks[x] by {
        lemma_locate(x, es, def.extent_count as int);
        assert(post.extents@[x / es].data == pre.extents@[x / es].data);
    }
    assert(post@.blocks =~= target.blocks);
    assert forall|x: int| 0 <= x < post@.dirty.len() implies post@.dirty[x] == target.dirty[x] by {
        lemma_locate(x, es, def.extent_count as int);
        lemma_extent_below(x, es, span);
        if x / es < span {
            assert(!post.extents@[x / es].dirty_blocks@[x % es]);
        } else {
            assert(post.extents@[x / es] == pre.extents@[x / es]);
        }
    }
    assert(post@.dirty =~= target.dirty);
    assert forall|j: int| 0 <= j < post@.generation.len() implies post@.generation[j]
        == target.generation[j] by {
        if j >= span {
            assert(post.extents@[j] == pre.extents@[j]);
        }
    }
    assert(post@.generation =~= target.generation);
    assert forall|j: int| 0 <= j < post@.flush_number.len() implies post@.flush_number[j]
        == target.flush_number[j] && post@.flushed_generation[j]
            == target.flushed_generation[j] by {
        if j >= span {
            assert(post.extents@[j] == pre.extents@[j]);
        }
    }
    assert(post@.flush_number =~= target.flush_number);
    assert(post@.flushed_generation =~= target.flushed_generation);
}

} // verus!
