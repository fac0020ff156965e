//! Jobs: what each kind of job touches, which earlier jobs it has to wait
//! for, and when a repair holds it back.
//!
//! Two reads or writes that touch a common block wait for one another in
//! the order of their arrival. A flush is ordered against every job: it
//! waits for every earlier job, and every later job waits for it. The
//! closing of an extent touches the whole extent. The steps of a repair
//! that follow the closing wait for the earlier steps of the same repair
//! and for every earlier flush. They do not wait for the reads and writes
//! that arrived in between: those are held back until the extent is in
//! service again.

use vstd::prelude::*;
use crate::error::Error;
use crate::repair::{RepairSource, RepairState};

verus! {

/// What a job does and what it touches.
#[derive(Debug)]
pub enum JobKind {
    /// Read the blocks `start .. start + count`.
    Read { start: u64, count: u64 },
    /// Write `data` over the blocks `start .. start + count`.
    Write { start: u64, count: u64, data: Vec<u8> },
    /// Flush every extent, or only those below `extent_limit`.
    Flush { flush_number: u64, generation_number: u64, extent_limit: Option<u32> },
    /// Take an extent offline to begin its repair.
    ExtentClose { extent: u32 },
    /// Fill the extent under repair from `source`; `content` is what a peer
    /// sent, or nothing when it could not be reached.
    ExtentRepair { extent: u32, source: RepairSource, content: Option<Vec<u8>> },
    /// Give the repaired extent its new generation.
    ExtentReopen { extent: u32, generation: u64 },
    /// Flush and check the repaired extent and put it back into service.
    ExtentVerify { extent: u32 },
}

/// Where a job stands.
#[derive(Clone, Copy, Debug, PartialEq, Eq, Structural)]
pub enum JobState {
    /// Arrived; it may still have to wait for earlier jobs.
    New,
    /// Nothing that it waits for stands in its way any more.
    Ready,
    /// Its work was begun.
    InProgress,
    /// Finished successfully.
    Complete,
    /// Finished with a failure.
    Error { cause: Error },
}

/// Whether a job in this state is done, one way or the other.
pub open spec fn finished(state: JobState) -> bool {
    state is Complete || state is Error
}

/// Whether a job in this state was found to have nothing left in its way.
pub open spec fn cleared(state: JobState) -> bool {
    !(state is New)
}

/// Whether the work of a job in this state was begun.
pub open spec fn begun(state: JobState) -> bool {
    state is InProgress || finished(state)
}

impl JobState {
    /// Whether the job is done, one way or the other.
    pub fn is_finished(&self) -> (r: bool)
        ensures
            r == finished(*self),
    {
        match self {
            JobState::Complete => true,
            JobState::Error { .. } => true,
            _ => false,
        }
    }

    /// Whether the work of the job was begun.
    pub fn is_begun(&self) -> (r: bool)
        ensures
            r == begun(*self),
    {
        match self {
            JobState::New => false,
            JobState::Ready => false,
            _ => true,
        }
    }
}

impl JobKind {
    /// Whether the job is a step of a repair other than its first.
    pub open spec fn is_continuation(self) -> bool {
        self is ExtentRepair || self is ExtentReopen || self is ExtentVerify
    }

    /// The extent that a repair step works on.
    pub open spec fn repair_target(self) -> Option<u32> {
        match self {
            JobKind::ExtentClose { extent } => Some(extent),
            JobKind::ExtentRepair { extent, .. } => Some(extent),
            JobKind::ExtentReopen { extent, .. } => Some(extent),
            JobKind::ExtentVerify { extent } => Some(extent),
            _ => None,
        }
    }

    /// The first block that the job touches, in a region whose extents
    /// have `es` blocks. A repair step touches its whole extent. A flush
    /// has no blocks of its own: it is ordered against every job.
    pub open spec fn lo(self, es: int) -> int {
        match self {
            JobKind::Read { start, .. } => start as int,
            JobKind::Write { start, .. } => start as int,
            JobKind::Flush { .. } => 0,
            JobKind::ExtentClose { extent } => extent * es,
            JobKind::ExtentRepair { extent, .. } => extent * es,
            JobKind::ExtentReopen { extent, .. } => extent * es,
            JobKind::ExtentVerify { extent } => extent * es,
        }
    }

    /// The block after the last one that the job touches.
    pub open spec fn hi(self, es: int) -> int {
        match self {
            JobKind::Read { start, count } => start + count,
            JobKind::Write { start, count, .. } => start + count,
            JobKind::Flush { .. } => 0,
            JobKind::ExtentClose { extent } => extent * es + es,
            JobKind::ExtentRepair { extent, .. } => extent * es + es,
            JobKind::ExtentReopen { extent, .. } => extent * es + es,
            JobKind::ExtentVerify { extent } => extent * es + es,
        }
    }

    /// Whether the job touches block `b`.
    pub open spec fn touches(self, es: int, b: int) -> bool {
        self.lo(es) <= b < self.hi(es)
    }

    /// Whether the two jobs touch a common block.
    pub open spec fn overlaps(self, other: JobKind, es: int) -> bool {
        self.lo(es) < other.hi(es) && other.lo(es) < self.hi(es) && self.lo(es) < self.hi(es)
            && other.lo(es) < other.hi(es)
    }

    /// The blocks that the job touches, as a pair of bounds.
    fn bounds(&self, es: u64) -> (r: (u128, u128))
        ensures
            r.0 == self.lo(es as int),
            r.1 == self.hi(es as int),
    {
        match self {
            JobKind::Read { start, count } => (*start as u128, *start as u128 + *count as u128),
            JobKind::Write { start, count, .. } => (
                *start as u128,
                *start as u128 + *count as u128,
            ),
            JobKind::Flush { .. } => (0, 0),
            JobKind::ExtentClose { extent } => extent_bounds(*extent, es),
            JobKind::ExtentRepair { extent, .. } => extent_bounds(*extent, es),
            JobKind::ExtentReopen { extent, .. } => extent_bounds(*extent, es),
            JobKind::ExtentVerify { extent } => extent_bounds(*extent, es),
        }
    }

    /// The extent that a repair step works on.
    pub fn target(&self) -> (r: Option<u32>)
        ensures
            r == self.repair_target(),
    {
        match self {
            JobKind::ExtentClose { extent } => Some(*extent),
            JobKind::ExtentRepair { extent, .. } => Some(*extent),
            JobKind::ExtentReopen { extent, .. } => Some(*extent),
            JobKind::ExtentVerify { extent } => Some(*extent),
            _ => None,
        }
    }

    /// Whether the job is a step of a repair other than its first.
    pub fn continues_repair(&self) -> (r: bool)
        ensures
            r == self.is_continuation(),
    {
        match self {
            JobKind::ExtentRepair { .. } => true,
            JobKind::ExtentReopen { .. } => true,
            JobKind::ExtentVerify { .. } => true,
            _ => false,
        }
    }

    /// Whether the job is a flush.
    pub fn is_flush(&self) -> (r: bool)
        ensures
            r == (*self is Flush),
    {
        match self {
            JobKind::Flush { .. } => true,
            _ => false,
        }
    }

    /// Whether this job, arriving after `earlier`, has to wait for it.
    pub fn depends_on(&self, earlier: &JobKind, es: u64) -> (r: bool)
        ensures
            r == needs(*self, *earlier, es as int),
    {
        if self.continues_repair() {
            if earlier.is_flush() {
                return true;
            }
            let mine = self.target();
            let theirs = earlier.target();
            match (mine, theirs) {
                (Some(a), Some(b)) => a == b,
                _ => false,
            }
        } else if self.is_flush() || earlier.is_flush() {
            true
        } else {
            let (lo, hi) = self.bounds(es);
            let (elo, ehi) = earlier.bounds(es);
            lo < ehi && elo < hi && lo < hi && elo < ehi
        }
    }

    /// Whether the job has to stay back while `repair` is under way.
    pub fn is_held(&self, repair: Option<RepairState>, es: u64) -> (r: bool)
        ensures
            r == held(*self, repair, es as int),
    {
        let state = match repair {
            Some(state) => state,
            None => {
                return false;
            },
        };
        match self {
            JobKind::Flush { extent_limit, .. } => match extent_limit {
                Some(limit) => state.extent < *limit,
                None => true,
            },
            JobKind::ExtentClose { .. } => true,
            JobKind::Read { .. } => {
                let (lo, hi) = self.bounds(es);
                let (elo, ehi) = extent_bounds(state.extent, es);
                lo < ehi && elo < hi && lo < hi
            },
            JobKind::Write { .. } => {
                let (lo, hi) = self.bounds(es);
                let (elo, ehi) = extent_bounds(state.extent, es);
                lo < ehi && elo < hi && lo < hi
            },
            _ => false,
        }
    }
}

/// The blocks of extent `extent`, as a pair of bounds.
fn extent_bounds(extent: u32, es: u64) -> (r: (u128, u128))
    ensures
        r.0 == extent * es,
        r.1 == extent * es + es,
{
    assert(0 <= extent * es <= 0xffff_ffff * 0xffff_ffff_ffff_ffff) by (nonlinear_arith)
        requires
            0 <= extent <= 0xffff_ffff,
            0 <= es <= 0xffff_ffff_ffff_ffff,
    ;
    let lo = (extent as u128) * (es as u128);
    (lo, lo + es as u128)
}

/// Whether a job of kind `later` has to wait for an unfinished job of kind
/// `earlier` that arrived before it. Every job waits for every flush, and
/// a flush waits for every job. Besides, a later step of a repair waits
/// for the earlier steps of the repair of the same extent, and two other
/// jobs that touch a common block wait for one another in the order of
/// their arrival.
pub open spec fn needs(later: JobKind, earlier: JobKind, es: int) -> bool {
    if later.is_continuation() {
        earlier is Flush || (earlier.repair_target() is Some && earlier.repair_target()
            == later.repair_target())
    } else {
        later is Flush || earlier is Flush || later.overlaps(earlier, es)
    }
}

/// Whether a job that is free of unfinished dependencies still has to stay
/// back because `repair` is under way: a read or write that touches the
/// extent under repair, a flush that covers it, and the closing of any
/// extent. The later steps of the repair itself are never held.
pub open spec fn held(kind: JobKind, repair: Option<RepairState>, es: int) -> bool {
    match repair {
        None => false,
        Some(r) => match kind {
            JobKind::Flush { extent_limit, .. } => match extent_limit {
                Some(limit) => r.extent < limit,
                None => true,
            },
            JobKind::ExtentClose { .. } => true,
            JobKind::Read { .. } => kind.lo(es) < r.extent * es + es && r.extent * es < kind.hi(es)
                && kind.lo(es) < kind.hi(es),
            JobKind::Write { .. } => kind.lo(es) < r.extent * es + es && r.extent * es < kind.hi(
                es,
            ) && kind.lo(es) < kind.hi(es),
            _ => false,
        },
    }
}

} // verus!
