//! The durable definition of a region and the options it is created from.

use vstd::prelude::*;
use crate::error::Error;

verus! {

/// Bytes per block when no option says otherwise.
pub const DEFAULT_BLOCK_SIZE: u64 = 512;

/// Blocks per extent when no option says otherwise.
pub const DEFAULT_EXTENT_SIZE: u64 = 100;

/// Number of extents when no option says otherwise.
pub const DEFAULT_EXTENT_COUNT: u32 = 15;

/// What a region is made of. It is fixed when the region is created; only
/// the number of extents may grow afterwards.
#[derive(Clone, Copy, Debug, PartialEq, Eq, Structural)]
pub struct RegionDefinition {
    /// Bytes per block.
    pub block_size: u64,
    /// Blocks per extent.
    pub extent_size: u64,
    /// Number of extents.
    pub extent_count: u32,
    /// Identity of the region.
    pub uuid: u128,
    /// Whether the caller stores block data already encrypted. The engine
    /// treats the bytes as opaque either way.
    pub encrypted: bool,
}

impl RegionDefinition {
    /// A definition is valid when blocks and extents are not empty, one
    /// extent fits in memory, and the blocks can be numbered in 64 bits
    /// however many extents the region comes to have.
    pub open spec fn valid(self) -> bool {
        &&& self.block_size > 0
        &&& self.extent_size > 0
        &&& self.extent_size * self.block_size <= usize::MAX
        &&& self.extent_size * (u32::MAX as int) <= u64::MAX
    }

    /// Number of blocks in the whole region.
    pub open spec fn total_blocks(self) -> int {
        self.extent_size * self.extent_count
    }

    /// Number of bytes in one extent.
    pub open spec fn extent_bytes(self) -> int {
        self.extent_size * self.block_size
    }

    /// The same definition with another number of extents.
    pub open spec fn with_extent_count(self, count: u32) -> RegionDefinition {
        RegionDefinition { extent_count: count, ..self }
    }

    /// Whether the definition is valid.
    pub fn is_valid(&self) -> (r: bool)
        ensures
            r == self.valid(),
    {
        if self.block_size == 0 || self.extent_size == 0 {
            return false;
        }
        let bytes = self.extent_size.checked_mul(self.block_size);
        let blocks = self.extent_size.checked_mul(u32::MAX as u64);
        match (bytes, blocks) {
            (Some(b), Some(_)) => b <= usize::MAX as u64,
            _ => false,
        }
    }

    /// Number of blocks in the whole region.
    pub fn block_count(&self) -> (n: u64)
        requires
            self.valid(),
        ensures
            n == self.total_blocks(),
    {
        proof {
            lemma_total_blocks_fit(*self);
        }
        self.extent_size * (self.extent_count as u64)
    }

    /// Number of bytes in one extent.
    pub fn extent_len(&self) -> (n: usize)
        requires
            self.valid(),
        ensures
            n == self.extent_bytes(),
    {
        (self.extent_size * self.block_size) as usize
    }
}

/// The block count of a valid definition fits in 64 bits.
pub proof fn lemma_total_blocks_fit(def: RegionDefinition)
    requires
        def.valid(),
    ensures
        0 <= def.total_blocks() <= u64::MAX,
{
    assert(def.extent_size * def.extent_count <= def.extent_size * (u32::MAX as int))
        by (nonlinear_arith)
        requires
            def.extent_count <= u32::MAX,
            def.extent_size >= 0,
    ;
    assert(0 <= def.extent_size * def.extent_count) by (nonlinear_arith)
        requires
            def.extent_count >= 0,
            def.extent_size >= 0,
    ;
}

/// In a valid definition a block's length and an extent's block count fit
/// in `usize`.
pub proof fn lemma_sizes_fit(def: RegionDefinition)
    requires
        def.valid(),
    ensures
        def.block_size <= usize::MAX,
        def.extent_size <= usize::MAX,
        def.extent_bytes() <= usize::MAX,
{
    assert(def.extent_size * def.block_size >= def.block_size) by (nonlinear_arith)
        requires
            def.extent_size >= 1,
            def.block_size >= 0,
    ;
    assert(def.extent_size * def.block_size >= def.extent_size) by (nonlinear_arith)
        requires
            def.extent_size >= 0,
            def.block_size >= 1,
    ;
}

/// Where block `i` of `n` blocks of `bs` bytes lies.
pub proof fn lemma_block_span(i: int, n: int, bs: int)
    requires
        0 <= i < n,
        0 <= bs,
    ensures
        0 <= i * bs,
        (i + 1) * bs == i * bs + bs,
        i * bs + bs <= n * bs,
{
    assert(0 <= i * bs) by (nonlinear_arith)
        requires
            0 <= i,
            0 <= bs,
    ;
    assert((i + 1) * bs == i * bs + bs) by (nonlinear_arith);
    assert((i + 1) * bs <= n * bs) by (nonlinear_arith)
        requires
            i + 1 <= n,
            0 <= bs,
    ;
}

/// The options a region is created from, or expected to have when it is
/// opened. A field that is absent takes its default on creation and is not
/// compared on opening.
#[derive(Clone, Copy, Debug, PartialEq, Eq, Structural)]
pub struct RegionOptions {
    /// Bytes per block.
    pub block_size: Option<u64>,
    /// Blocks per extent.
    pub extent_size: Option<u64>,
    /// Number of extents.
    pub extent_count: Option<u32>,
    /// Identity of the region.
    pub uuid: Option<u128>,
    /// Whether block data is stored already encrypted.
    pub encrypted: Option<bool>,
}

impl RegionOptions {
    /// Options that state nothing.
    pub open spec fn unset() -> RegionOptions {
        RegionOptions {
            block_size: None,
            extent_size: None,
            extent_count: None,
            uuid: None,
            encrypted: None,
        }
    }

    /// The definition these options describe, with defaults filled in.
    pub open spec fn definition(self) -> RegionDefinition {
        RegionDefinition {
            block_size: match self.block_size {
                Some(v) => v,
                None => DEFAULT_BLOCK_SIZE,
            },
            extent_size: match self.extent_size {
                Some(v) => v,
                None => DEFAULT_EXTENT_SIZE,
            },
            extent_count: match self.extent_count {
                Some(v) => v,
                None => DEFAULT_EXTENT_COUNT,
            },
            uuid: match self.uuid {
                Some(v) => v,
                None => 0,
            },
            encrypted: match self.encrypted {
                Some(v) => v,
                None => false,
            },
        }
    }

    /// Whether `def` agrees with every field that these options state.
    pub open spec fn admits(self, def: RegionDefinition) -> bool {
        &&& self.block_size matches Some(v) ==> v == def.block_size
        &&& self.extent_size matches Some(v) ==> v == def.extent_size
        &&& self.extent_count matches Some(v) ==> v == def.extent_count
        &&& self.uuid matches Some(v) ==> v == def.uuid
        &&& self.encrypted matches Some(v) ==> v == def.encrypted
    }

    /// Options that state nothing.
    pub fn new() -> (o: RegionOptions)
        ensures
            o == RegionOptions::unset(),
    {
        RegionOptions {
            block_size: None,
            extent_size: None,
            extent_count: None,
            uuid: None,
            encrypted: None,
        }
    }

    /// The definition these options describe, or `InvalidDefinition` when
    /// that definition is malformed.
    pub fn to_definition(&self) -> (r: Result<RegionDefinition, Error>)
        ensures
            self.definition().valid() ==> r == Ok::<RegionDefinition, Error>(self.definition()),
            !self.definition().valid() ==> r == Err::<RegionDefinition, Error>(
                Error::InvalidDefinition,
            ),
    {
        let def = RegionDefinition {
            block_size: match self.block_size {
                Some(v) => v,
                None => DEFAULT_BLOCK_SIZE,
            },
            extent_size: match self.extent_size {
                Some(v) => v,
                None => DEFAULT_EXTENT_SIZE,
            },
            extent_count: match self.extent_count {
                Some(v) => v,
                None => DEFAULT_EXTENT_COUNT,
            },
            uuid: match self.uuid {
                Some(v) => v,
                None => 0,
            },
            encrypted: match self.encrypted {
                Some(v) => v,
                None => false,
            },
        };
        if def.is_valid() {
            Ok(def)
        } else {
            Err(Error::InvalidDefinition)
        }
    }

    /// Whether `def` agrees with every field that these options state.
    pub fn accepts(&self, def: &RegionDefinition) -> (r: bool)
        ensures
            r == self.admits(*def),
    {
        let block_size = match self.block_size {
            Some(v) => v == def.block_size,
            None => true,
        };
        let extent_size = match self.extent_size {
            Some(v) => v == def.extent_size,
            None => true,
        };
        let extent_count = match self.extent_count {
            Some(v) => v == def.extent_count,
            None => true,
        };
        let uuid = match self.uuid {
            Some(v) => v == def.uuid,
            None => true,
        };
        let encrypted = match self.encrypted {
            Some(v) => v == def.encrypted,
            None => true,
        };
        block_size && extent_size && extent_count && uuid && encrypted
    }
}

} // verus!
