//! Live repair of one extent: the extent is taken offline, refilled from an
//! authoritative source, given a new generation, flushed and checked, and
//! put back into service, while the other extents keep serving requests.

use vstd::prelude::*;
use crate::definition::lemma_total_blocks_fit;
use crate::durability::{flush_steps, FlushStep};
use crate::error::Error;
use crate::model::{lemma_max_of, max_of, RegionView};
use crate::region::Region;

verus! {

/// How many times a repair may fail before the connection that drives it
/// is given up.
pub const MAX_REPAIR_ATTEMPTS: u32 = 3;

/// How far the repair of an extent has come.
#[derive(Clone, Copy, Debug, PartialEq, Eq, Structural)]
pub enum RepairStep {
    /// The extent is offline; nothing was transferred yet.
    Closed,
    /// The authoritative contents were written into the extent.
    Repairing,
    /// The extent has its new generation.
    Reopening,
    /// The flush that ends the repair was carried out.
    Verifying,
}

/// Where the authoritative contents of an extent come from.
#[derive(Clone, Copy, Debug, PartialEq, Eq, Structural)]
pub enum RepairSource {
    /// A healthy peer supplies them.
    Peer,
    /// The extent's own contents stand.
    Local,
}

/// The one repair that is under way in a region.
#[derive(Clone, Copy, Debug, PartialEq, Eq, Structural)]
pub struct RepairState {
    /// The extent under repair.
    pub extent: u32,
    /// How far the repair has come.
    pub step: RepairStep,
    /// The source that the contents were taken from, once they were.
    pub source: Option<RepairSource>,
    /// The extent's generation when it was taken offline.
    pub prior_generation: u64,
    /// How many times this repair has failed so far.
    pub attempts: u32,
}

/// The service state of one extent.
#[derive(Clone, Copy, Debug, PartialEq, Eq, Structural)]
pub enum ExtentState {
    /// In normal service.
    Open,
    /// Offline, awaiting its contents.
    Closed,
    /// Offline, contents transferred.
    Repairing,
    /// Offline, new generation assigned.
    Reopening,
    /// Offline, final flush done, awaiting the last check.
    Verifying,
}

/// The state of extent `e` when `repair` is the repair under way, if any.
pub open spec fn extent_state(repair: Option<RepairState>, e: int) -> ExtentState {
    match repair {
        Some(r) => if r.extent == e {
            match r.step {
                RepairStep::Closed => ExtentState::Closed,
                RepairStep::Repairing => ExtentState::Repairing,
                RepairStep::Reopening => ExtentState::Reopening,
                RepairStep::Verifying => ExtentState::Verifying,
            }
        } else {
            ExtentState::Open
        },
        None => ExtentState::Open,
    }
}

/// A repair fits the generations of a region when it names one of its
/// extents, that extent's generation is not below the one it had when it
/// went offline, and is above it once the new generation was assigned.
pub open spec fn repair_coherent(repair: Option<RepairState>, generation: Seq<u64>) -> bool {
    repair matches Some(r) ==> {
        &&& r.extent < generation.len()
        &&& generation[r.extent as int] >= r.prior_generation
        &&& (r.step is Reopening || r.step is Verifying) ==> generation[r.extent as int]
            > r.prior_generation
    }
}

/// The number of failed attempts after one more failure.
pub open spec fn bump(attempts: u32) -> u32 {
    if attempts < u32::MAX {
        (attempts + 1) as u32
    } else {
        attempts
    }
}

impl RepairState {
    /// The repair thrown back to its beginning after a failure: the extent
    /// stays offline and the failure is counted.
    pub open spec fn aborted(self) -> RepairState {
        RepairState {
            step: RepairStep::Closed,
            source: None,
            attempts: bump(self.attempts),
            ..self
        }
    }

    /// Whether the repair has failed as often as it may.
    pub open spec fn exhausted(self) -> bool {
        self.attempts >= MAX_REPAIR_ATTEMPTS
    }

    /// Whether the repair has failed as often as it may.
    pub fn is_exhausted(&self) -> (r: bool)
        ensures
            r == self.exhausted(),
    {
        self.attempts >= MAX_REPAIR_ATTEMPTS
    }

    /// The state of extent `e` under this repair.
    pub fn state_of(&self, e: u32) -> (s: ExtentState)
        ensures
            s == extent_state(Some(*self), e as int),
    {
        if self.extent != e {
            return ExtentState::Open;
        }
        match self.step {
            RepairStep::Closed => ExtentState::Closed,
            RepairStep::Repairing => ExtentState::Repairing,
            RepairStep::Reopening => ExtentState::Reopening,
            RepairStep::Verifying => ExtentState::Verifying,
        }
    }
}

impl RegionView {
    /// Whether extent `e` is under repair and the repair stands at `step`.
    pub open spec fn repair_at(self, e: u32, step: RepairStep) -> bool {
        self.repair matches Some(r) && r.extent == e && r.step == step
    }

    /// The first block of extent `e`.
    pub open spec fn extent_start(self, e: u32) -> int {
        e * self.def.extent_size
    }

    /// The region after the repair under way was thrown back to its
    /// beginning.
    pub open spec fn repair_aborted(self) -> RegionView {
        match self.repair {
            Some(r) => self.with_repair(Some(r.aborted())),
            None => self,
        }
    }

    /// Why extent `e` cannot be taken offline, if it cannot: the region is
    /// read-only, has no such extent, or has a repair under way already.
    pub open spec fn close_error(self, e: u32) -> Option<Error> {
        if self.read_only {
            Some(Error::ReadOnlyRegion)
        } else if e >= self.def.extent_count {
            Some(Error::OutOfBounds)
        } else if self.repair is Some {
            Some(Error::RepairFailed)
        } else {
            None
        }
    }

    /// The region after extent `e` was taken offline.
    pub open spec fn closed(self, e: u32) -> RegionView {
        self.with_repair(
            Some(
                RepairState {
                    extent: e,
                    step: RepairStep::Closed,
                    source: None,
                    prior_generation: self.generation[e as int],
                    attempts: 0,
                },
            ),
        )
    }

    /// Why a step of the repair of extent `e` is refused outright, leaving
    /// the region as it is: the region is read-only, has no such extent, or
    /// the repair of `e` does not stand at `step`.
    pub open spec fn step_refused(self, e: u32, step: RepairStep) -> Option<Error> {
        if self.read_only {
            Some(Error::ReadOnlyRegion)
        } else if e >= self.def.extent_count {
            Some(Error::OutOfBounds)
        } else if !self.repair_at(e, step) {
            Some(Error::RepairFailed)
        } else {
            None
        }
    }

    /// Whether the repair under way may not be tried again.
    pub open spec fn repair_exhausted(self) -> bool {
        self.repair matches Some(r) && r.exhausted()
    }

    /// Whether `source` delivers contents for one whole extent. A peer
    /// must have been reached and must have sent exactly one extent.
    pub open spec fn source_usable(self, source: RepairSource, content: Option<Seq<u8>>) -> bool {
        match source {
            RepairSource::Local => true,
            RepairSource::Peer => content matches Some(data) && data.len()
                == self.def.extent_bytes(),
        }
    }

    /// The region after the contents of extent `e` were taken from
    /// `source`: with a peer, the extent holds the peer's bytes and all its
    /// blocks are dirty; with a local source the contents stand.
    pub open spec fn repaired(self, e: u32, source: RepairSource,
        content: Option<Seq<u8>>) -> RegionView {
        let filled = match (source, content) {
            (RepairSource::Peer, Some(data)) => self.write(
                self.extent_start(e),
                self.def.extent_size as int,
                data,
            ),
            _ => self,
        };
        match self.repair {
            Some(r) => filled.with_repair(
                Some(RepairState { step: RepairStep::Repairing, source: Some(source), ..r }),
            ),
            None => filled,
        }
    }

    /// The region after extent `e` was given the generation `generation`.
    pub open spec fn reopened(self, e: u32, generation: u64) -> RegionView {
        match self.repair {
            Some(r) => self.with_generation(e as int, generation).with_repair(
                Some(RepairState { step: RepairStep::Reopening, ..r }),
            ),
            None => self,
        }
    }

    /// The region after the flush that ends a repair: every extent is
    /// flushed with the highest flush number that any extent has, and with
    /// the repaired extent's generation.
    pub open spec fn repair_flushed(self, e: u32) -> RegionView {
        match self.repair {
            Some(r) => self.flush(
                max_of(self.flush_number),
                self.generation[e as int],
                self.def.extent_count as int,
            ).with_repair(Some(RepairState { step: RepairStep::Verifying, ..r })),
            None => self,
        }
    }
}

impl Region {
    /// The state of extent `e`: open unless it is the extent under repair.
    pub fn extent_state(&self, e: u32) -> (s: ExtentState)
        ensures
            s == extent_state(self@.repair, e as int),
    {
        match self.repair() {
            Some(r) => r.state_of(e),
            None => ExtentState::Open,
        }
    }

    /// Takes extent `e` offline to begin its repair. Only one extent may be
    /// offline at a time: with a repair under way the call fails with
    /// `RepairFailed`. A read-only region refuses with `ReadOnlyRegion`, an
    /// extent that the region lacks gives `OutOfBounds`. A refused call
    /// changes nothing.
    pub fn close_extent(&mut self, e: u32) -> (r: Result<(), Error>)
        requires
            old(self).wf(),
        ensures
            final(self).wf(),
            match old(self)@.close_error(e) {
                Some(err) => r == Err::<(), Error>(err) && final(self)@ == old(self)@,
                None => r is Ok && final(self)@ == old(self)@.closed(e),
            },
    {
        if self.is_read_only() {
            return Err(Error::ReadOnlyRegion);
        }
        let meta = match self.extent_meta(e) {
            Some(meta) => meta,
            None => {
                return Err(Error::OutOfBounds);
            },
        };
        if self.repair().is_some() {
            return Err(Error::RepairFailed);
        }
        proof {
            self.lemma_view_wf();
        }
        self.set_repair(
            Some(
                RepairState {
                    extent: e,
                    step: RepairStep::Closed,
                    source: None,
                    prior_generation: meta.generation,
                    attempts: 0,
                },
            ),
        );
        Ok(())
    }

    /// Checks that the repair of extent `e` stands at `step` and hands out
    /// its state.
    fn repair_standing(&self, e: u32, step: RepairStep) -> (r: Result<RepairState, Error>)
        requires
            self.wf(),
        ensures
            match self@.step_refused(e, step) {
                Some(err) => r == Err::<RepairState, Error>(err),
                None => r matches Ok(state) && self@.repair == Some(state),
            },
    {
        if self.is_read_only() {
            return Err(Error::ReadOnlyRegion);
        }
        if e >= self.extent_count() {
            return Err(Error::OutOfBounds);
        }
        match self.repair() {
            Some(state) => {
                if state.extent == e && state.step == step {
                    Ok(state)
                } else {
                    Err(Error::RepairFailed)
                }
            },
            None => Err(Error::RepairFailed),
        }
    }

    /// Throws the repair under way back to its beginning and counts the
    /// failure.
    fn abort_repair(&mut self, state: RepairState)
        requires
            old(self).wf(),
            old(self)@.repair == Some(state),
        ensures
            final(self).wf(),
            final(self)@ == old(self)@.repair_aborted(),
    {
        proof {
            self.lemma_view_wf();
        }
        let attempts = if state.attempts < u32::MAX {
            state.attempts + 1
        } else {
            state.attempts
        };
        self.set_repair(
            Some(
                RepairState {
                    extent: state.extent,
                    step: RepairStep::Closed,
                    source: None,
                    prior_generation: state.prior_generation,
                    attempts,
                },
            ),
        );
    }

    /// Fills extent `e`, which must be offline with its repair at the
    /// beginning, from `source`. With a peer as source, `content` holds
    /// what the peer sent, or nothing when the peer could not be reached;
    /// the bytes are written as repair writes, so the blocks stay dirty
    /// until the flush that ends the repair.
    ///
    /// The call is refused, and changes nothing, on a read-only region
    /// (`ReadOnlyRegion`), for an extent that the region lacks
    /// (`OutOfBounds`), when the repair of `e` is not at its beginning, and
    /// when that repair has failed as often as it may (`RepairFailed`).
    /// When the source delivers nothing usable the repair is thrown back to
    /// its beginning, the failure is counted, and the result is
    /// `RepairFailed`.
    pub fn repair_extent(&mut self, e: u32, source: RepairSource, content: Option<&Vec<u8>>) -> (r:
        Result<(), Error>)
        requires
            old(self).wf(),
        ensures
            final(self).wf(),
            match old(self)@.step_refused(e, RepairStep::Closed) {
                Some(err) => r == Err::<(), Error>(err) && final(self)@ == old(self)@,
                None => if old(self)@.repair_exhausted() {
                    r == Err::<(), Error>(Error::RepairFailed) && final(self)@ == old(self)@
                } else if old(self)@.source_usable(
                    source,
                    match content {
                        Some(data) => Some(data@),
                        None => None,
                    },
                ) {
                    r is Ok && final(self)@ == old(self)@.repaired(
                        e,
                        source,
                        match content {
                            Some(data) => Some(data@),
                            None => None,
                        },
                    )
                } else {
                    r == Err::<(), Error>(Error::RepairFailed) && final(self)@
                        == old(self)@.repair_aborted()
                },
            },
    {
        let state = match self.repair_standing(e, RepairStep::Closed) {
            Ok(state) => state,
            Err(err) => {
                return Err(err);
            },
        };
        if state.is_exhausted() {
            return Err(Error::RepairFailed);
        }
        proof {
            self.lemma_view_wf();
            lemma_total_blocks_fit(self@.def);
        }
        let def = self.def();
        match source {
            RepairSource::Local => {},
            RepairSource::Peer => {
                let data = match content {
                    Some(data) => data,
                    None => {
                        self.abort_repair(state);
                        return Err(Error::RepairFailed);
                    },
                };
                if data.len() != def.extent_len() {
                    self.abort_repair(state);
                    return Err(Error::RepairFailed);
                }
                proof {
                    assert(e * def.extent_size + def.extent_size <= def.extent_size
                        * def.extent_count) by (nonlinear_arith)
                        requires
                            0 <= e < def.extent_count,
                            0 <= def.extent_size,
                    ;
                    assert(0 <= e * def.extent_size) by (nonlinear_arith)
                        requires
                            0 <= e,
                            0 <= def.extent_size,
                    ;
                }
                let start = (e as u64) * def.extent_size;
                let written = self.write(start, def.extent_size, data, true);
                assert(written is Ok);
            },
        }
        proof {
            self.lemma_view_wf();
        }
        self.set_repair(
            Some(
                RepairState {
                    extent: state.extent,
                    step: RepairStep::Repairing,
                    source: Some(source),
                    prior_generation: state.prior_generation,
                    attempts: state.attempts,
                },
            ),
        );
        Ok(())
    }

    /// Gives extent `e`, whose contents were transferred, its new
    /// generation. The generation must be above the one the extent has;
    /// otherwise the repair is thrown back to its beginning, the failure is
    /// counted, and the result is `RepairFailed`. The call is refused, and
    /// changes nothing, on a read-only region (`ReadOnlyRegion`), for an
    /// extent that the region lacks (`OutOfBounds`), and when the contents
    /// of `e` were not just transferred (`RepairFailed`).
    pub fn reopen_extent(&mut self, e: u32, generation: u64) -> (r: Result<(), Error>)
        requires
            old(self).wf(),
        ensures
            final(self).wf(),
            match old(self)@.step_refused(e, RepairStep::Repairing) {
                Some(err) => r == Err::<(), Error>(err) && final(self)@ == old(self)@,
                None => if generation > old(self)@.generation[e as int] {
                    r is Ok && final(self)@ == old(self)@.reopened(e, generation)
                } else {
                    r == Err::<(), Error>(Error::RepairFailed) && final(self)@
                        == old(self)@.repair_aborted()
                },
            },
    {
        let state = match self.repair_standing(e, RepairStep::Repairing) {
            Ok(state) => state,
            Err(err) => {
                return Err(err);
            },
        };
        proof {
            self.lemma_view_wf();
        }
        let current = match self.extent_meta(e) {
            Some(meta) => meta.generation,
            None => {
                return Err(Error::OutOfBounds);
            },
        };
        if generation <= current {
            self.abort_repair(state);
            return Err(Error::RepairFailed);
        }
        self.set_generation(e, generation);
        proof {
            self.lemma_view_wf();
        }
        self.set_repair(
            Some(
                RepairState {
                    extent: state.extent,
                    step: RepairStep::Reopening,
                    source: state.source,
                    prior_generation: state.prior_generation,
                    attempts: state.attempts,
                },
            ),
        );
        Ok(())
    }

    /// Carries out the flush that ends the repair of extent `e`, which must
    /// have its new generation. The whole region is flushed with the
    /// highest flush number that any extent has, so that afterwards all
    /// extents agree on it, and with the repaired extent's generation. The
    /// result lists the storage steps of that flush. The call is refused,
    /// and changes nothing, on a read-only region (`ReadOnlyRegion`), for
    /// an extent that the region lacks (`OutOfBounds`), and when `e` was
    /// not just given its generation (`RepairFailed`).
    pub fn flush_repaired(&mut self, e: u32) -> (r: Result<Vec<FlushStep>, Error>)
        requires
            old(self).wf(),
        ensures
            final(self).wf(),
            match old(self)@.step_refused(e, RepairStep::Reopening) {
                Some(err) => r == Err::<Vec<FlushStep>, Error>(err) && final(self)@ == old(self)@,
                None => {
                    &&& final(self)@ == old(self)@.repair_flushed(e)
                    &&& r matches Ok(plan)
                    &&& plan@ == flush_steps(
                        old(self)@.def.extent_count as int,
                        max_of(old(self)@.flush_number),
                        old(self)@.generation[e as int],
                    )
                },
            },
    {
        let state = match self.repair_standing(e, RepairStep::Reopening) {
            Ok(state) => state,
            Err(err) => {
                return Err(err);
            },
        };
        proof {
            self.lemma_view_wf();
        }
        let generation = match self.extent_meta(e) {
            Some(meta) => meta.generation,
            None => {
                return Err(Error::OutOfBounds);
            },
        };
        let m = self.max_flush_number();
        proof {
            lemma_max_of(self@.flush_number);
        }
        let flushed = self.flush(m, generation, None);
        proof {
            self.lemma_view_wf();
        }
        self.set_repair(
            Some(
                RepairState {
                    extent: state.extent,
                    step: RepairStep::Verifying,
                    source: state.source,
                    prior_generation: state.prior_generation,
                    attempts: state.attempts,
                },
            ),
        );
        match flushed {
            Ok(plan) => Ok(plan),
            Err(err) => Err(err),
        }
    }

    /// Checks extent `e` after the flush that ended its repair and puts it
    /// back into service: no block of it may be dirty. If one is, the
    /// repair is thrown back to its beginning, the failure is counted, and
    /// the result is `RepairFailed`. The call is refused, and changes
    /// nothing, on a read-only region (`ReadOnlyRegion`), for an extent
    /// that the region lacks (`OutOfBounds`), and when the final flush of
    /// `e` was not just carried out (`RepairFailed`).
    ///
    /// On success the extent's generation is above the one it had when it
    /// was taken offline.
    pub fn finish_repair(&mut self, e: u32) -> (r: Result<(), Error>)
        requires
            old(self).wf(),
        ensures
            final(self).wf(),
            match old(self)@.step_refused(e, RepairStep::Verifying) {
                Some(err) => r == Err::<(), Error>(err) && final(self)@ == old(self)@,
                None => if old(self)@.extent_dirty(e as int) {
                    r == Err::<(), Error>(Error::RepairFailed) && final(self)@
                        == old(self)@.repair_aborted()
                } else {
                    &&& r is Ok
                    &&& final(self)@ == old(self)@.with_repair(None)
                    &&& final(self)@.generation[e as int] > old(self)@.repair->0.prior_generation
                },
            },
    {
        let state = match self.repair_standing(e, RepairStep::Verifying) {
            Ok(state) => state,
            Err(err) => {
                return Err(err);
            },
        };
        proof {
            self.lemma_view_wf();
        }
        let dirty = match self.extent_meta(e) {
            Some(meta) => meta.dirty,
            None => {
                return Err(Error::OutOfBounds);
            },
        };
        if dirty {
            self.abort_repair(state);
            return Err(Error::RepairFailed);
        }
        self.set_repair(None);
        Ok(())
    }
}

} // verus!
