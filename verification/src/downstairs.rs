//! The engine as one value: a region, the dispatcher that orders the jobs
//! of a connection, and the switches that tests use to disturb it.
//!
//! A job is taken in with `submit`, picked with `next_job`, begun with
//! `begin` and carried out against the region with `complete`. Between
//! `begin` and `complete` lies the storage work of the caller; several jobs
//! may be in progress at once, and the dispatcher sees to it that only jobs
//! that need not wait for one another are.

use vstd::prelude::*;
use crate::durability::{flush_steps, FlushStep};
use crate::error::{Error, Severity};
use crate::job::{held, JobKind, JobState};
use crate::model::{max_of, RegionView};
use crate::region::Region;
use crate::repair::{RepairState, RepairStep};
use crate::work::{
    begun_only, ended, lemma_begun_only_members, lemma_finish_in_order, lemma_one_job_per_id,
    lemma_passes_nothing, Work, WorkView,
};

verus! {

/// What a job that succeeded hands back.
#[derive(Debug)]
pub enum Reply {
    /// The bytes that were read.
    Read { data: Vec<u8> },
    /// The write was applied.
    Written,
    /// The flush was applied; the steps make it durable.
    Flushed { steps: Vec<FlushStep> },
    /// The extent is offline.
    Closed,
    /// The extent holds the authoritative contents.
    Repaired,
    /// The extent has its new generation.
    Reopened,
    /// The extent is back in service; the steps make its repair durable.
    Verified { steps: Vec<FlushStep> },
}

/// What the caller reports of the storage work of a job.
#[derive(Clone, Copy, Debug, PartialEq, Eq, Structural)]
pub enum Fault {
    /// The storage did its work.
    Clear,
    /// The storage of the given extent failed.
    Storage { extent: u32 },
    /// A test asks for a failure. It is heeded only where the engine was
    /// built to return errors on request.
    Injected,
}

/// What operators are told of a failure that reaches beyond its job: the
/// extent at fault and the numbers it last had.
#[derive(Clone, Copy, Debug, PartialEq, Eq, Structural)]
pub struct FatalReport {
    /// The extent at fault.
    pub extent: u32,
    /// Its generation.
    pub generation: u64,
    /// Its flush number.
    pub flush_number: u64,
}

/// How a job ended.
#[derive(Debug)]
pub struct Completion {
    /// The number of the job.
    pub id: u64,
    /// What the job hands back, or why it failed.
    pub result: Result<Reply, Error>,
    /// How far the failure reaches; `Job` for a job that succeeded.
    pub severity: Severity,
    /// For a failure that reaches beyond its job, the extent at fault and
    /// its numbers, where an extent is at fault.
    pub report: Option<FatalReport>,
}

/// What a peer sent, as a sequence of bytes.
pub open spec fn content_view(content: Option<Vec<u8>>) -> Option<Seq<u8>> {
    match content {
        Some(data) => Some(data@),
        None => None,
    }
}

/// Why a job of kind `kind` fails on a region that holds `v`, if it does.
pub open spec fn failure(kind: JobKind, v: RegionView) -> Option<Error> {
    match kind {
        JobKind::Read { start, count } => if v.in_bounds(start as int, count as int) {
            None
        } else {
            Some(Error::OutOfBounds)
        },
        JobKind::Write { start, count, data } => v.write_error(
            start as int,
            count as int,
            data@,
            false,
        ),
        JobKind::Flush { flush_number, extent_limit, .. } => v.flush_error(
            flush_number,
            v.flush_span(extent_limit),
        ),
        JobKind::ExtentClose { extent } => v.close_error(extent),
        JobKind::ExtentRepair { extent, source, content } => match v.step_refused(
            extent,
            RepairStep::Closed,
        ) {
            Some(e) => Some(e),
            None => if v.repair_exhausted() || !v.source_usable(source, content_view(content)) {
                Some(Error::RepairFailed)
            } else {
                None
            },
        },
        JobKind::ExtentReopen { extent, generation } => match v.step_refused(
            extent,
            RepairStep::Repairing,
        ) {
            Some(e) => Some(e),
            None => if generation > v.generation[extent as int] {
                None
            } else {
                Some(Error::RepairFailed)
            },
        },
        JobKind::ExtentVerify { extent } => v.step_refused(extent, RepairStep::Reopening),
    }
}

/// What a region that held `v` holds after a job of kind `kind` was carried
/// out. A job that fails leaves the region as it was, except that a repair
/// step that fails for want of a usable source or of a higher generation
/// throws the repair back to its beginning.
pub open spec fn applied(kind: JobKind, v: RegionView) -> RegionView {
    match kind {
        JobKind::Read { .. } => v,
        JobKind::Write { start, count, data } => if failure(kind, v) is None {
            v.write(start as int, count as int, data@)
        } else {
            v
        },
        JobKind::Flush { flush_number, generation_number, extent_limit } => if failure(kind, v)
            is None {
            v.flush(flush_number, generation_number, v.flush_span(extent_limit))
        } else {
            v
        },
        JobKind::ExtentClose { extent } => if failure(kind, v) is None {
            v.closed(extent)
        } else {
            v
        },
        JobKind::ExtentRepair { extent, source, content } => if v.step_refused(
            extent,
            RepairStep::Closed,
        ) is Some || v.repair_exhausted() {
            v
        } else if v.source_usable(source, content_view(content)) {
            v.repaired(extent, source, content_view(content))
        } else {
            v.repair_aborted()
        },
        JobKind::ExtentReopen { extent, generation } => if v.step_refused(
            extent,
            RepairStep::Repairing,
        ) is Some {
            v
        } else if generation > v.generation[extent as int] {
            v.reopened(extent, generation)
        } else {
            v.repair_aborted()
        },
        JobKind::ExtentVerify { extent } => if failure(kind, v) is None {
            v.repair_flushed(extent).with_repair(None)
        } else {
            v
        },
    }
}

/// Whether `reply` is what a job of kind `kind` hands back when it succeeds
/// on a region that held `v`.
pub open spec fn answers(reply: Reply, kind: JobKind, v: RegionView) -> bool {
    match kind {
        JobKind::Read { start, count } => reply matches Reply::Read { data } && data@ == v.read(
            start as int,
            count as int,
        ),
        JobKind::Write { .. } => reply is Written,
        JobKind::Flush { flush_number, generation_number,
            extent_limit } => reply matches Reply::Flushed {
            steps,
        } && steps@ == flush_steps(v.flush_span(extent_limit), flush_number, generation_number),
        JobKind::ExtentClose { .. } => reply is Closed,
        JobKind::ExtentRepair { .. } => reply is Repaired,
        JobKind::ExtentReopen { .. } => reply is Reopened,
        JobKind::ExtentVerify { extent } => reply matches Reply::Verified { steps } && steps@
            == flush_steps(
            v.def.extent_count as int,
            max_of(v.flush_number),
            v.generation[extent as int],
        ),
    }
}

/// How far a failure reaches. A storage failure during a flush, or during
/// the flush that ends a repair, stops the process; a repair that has
/// failed as often as it may costs the connection; every other failure
/// stays with its job.
pub open spec fn reach(kind: JobKind, error: Error, exhausted: bool) -> Severity {
    if error == Error::IoFailure && (kind is Flush || kind is ExtentVerify) {
        Severity::Process
    } else if error == Error::RepairFailed && exhausted {
        Severity::Connection
    } else {
        Severity::Job
    }
}

/// Whether a reported fault makes the job fail.
pub open spec fn faulted(fault: Fault, return_errors: bool) -> bool {
    fault is Storage || (fault is Injected && return_errors)
}

/// What is reported of a failure of the given reach on a region that holds
/// `v`. A failure that stays with its job is not reported. One that costs
/// the connection is reported for the extent under repair, one that stops
/// the process for the extent whose storage failed.
pub open spec fn reported(severity: Severity, fault: Fault, v: RegionView) -> Option<FatalReport> {
    let extent = match severity {
        Severity::Job => None,
        Severity::Connection => match v.repair {
            Some(r) => Some(r.extent),
            None => None,
        },
        Severity::Process => match fault {
            Fault::Storage { extent } => Some(extent),
            _ => None,
        },
    };
    match extent {
        Some(e) => if e < v.def.extent_count {
            Some(
                FatalReport {
                    extent: e,
                    generation: v.generation[e as int],
                    flush_number: v.flush_number[e as int],
                },
            )
        } else {
            None
        },
        None => None,
    }
}

/// How far a failure reaches.
pub fn severity(kind: &JobKind, error: Error, exhausted: bool) -> (s: Severity)
    ensures
        s == reach(*kind, error, exhausted),
{
    let barrier = match kind {
        JobKind::Flush { .. } => true,
        JobKind::ExtentVerify { .. } => true,
        _ => false,
    };
    match error {
        Error::IoFailure => if barrier {
            Severity::Process
        } else {
            Severity::Job
        },
        Error::RepairFailed => if exhausted {
            Severity::Connection
        } else {
            Severity::Job
        },
        _ => Severity::Job,
    }
}

/// Whether the extent under repair is left alone: no read or write that
/// touches it and no flush that covers it is in progress.
pub open spec fn undisturbed(w: WorkView, repair: Option<RepairState>) -> bool {
    forall|i: int|
        0 <= i < w.jobs.len() && (#[trigger] w.jobs[i]).state is InProgress && !(w.jobs[i].kind
            is ExtentClose) ==> !held(w.jobs[i].kind, repair, w.extent_size as int)
}

/// Whether a job of kind `kind` is in progress.
pub open spec fn running(w: WorkView, kind: JobKind) -> bool {
    exists|j: int|
        0 <= j < w.jobs.len() && (#[trigger] w.jobs[j]).state is InProgress && w.jobs[j].kind
            == kind
}

/// An extent that is left alone stays so when no job that was not in
/// progress comes to be in progress, and when the repair stays with its
/// extent or ends.
proof fn lemma_still_undisturbed(
    a: WorkView,
    b: WorkView,
    before: Option<RepairState>,
    after: Option<RepairState>,
)
    requires
        undisturbed(a, before),
        a.extent_size == b.extent_size,
        forall|i: int|
            0 <= i < b.jobs.len() && (#[trigger] b.jobs[i]).state is InProgress ==> running(
                a,
                b.jobs[i].kind,
            ),
        after is None || (before is Some && before->0.extent == after->0.extent),
    ensures
        undisturbed(b, after),
{
    assert forall|i: int|
        0 <= i < b.jobs.len() && (#[trigger] b.jobs[i]).state is InProgress && !(b.jobs[i].kind
            is ExtentClose) implies !held(b.jobs[i].kind, after, b.extent_size as int) by {
        let kind = b.jobs[i].kind;
        let j = choose|j: int|
            0 <= j < a.jobs.len() && (#[trigger] a.jobs[j]).state is InProgress && a.jobs[j].kind
                == kind;
        assert(!held(a.jobs[j].kind, before, a.extent_size as int));
    }
}

/// How a job moves the repair of a region: the repair under way stays with
/// its extent or ends, and a repair begins only when an extent is closed.
pub proof fn lemma_repair_moves(kind: JobKind, v: RegionView)
    ensures
        match applied(kind, v).repair {
            Some(after) => match v.repair {
                Some(before) => before.extent == after.extent,
                None => kind is ExtentClose && kind.repair_target() == Some(after.extent)
                    && failure(kind, v) is None,
            },
            None => true,
        },
{
}

/// After a flush of all extents no block of any extent is dirty.
pub proof fn lemma_flushed_clean(v: RegionView, flush_number: u64, generation: u64, e: int)
    requires
        v.wf(),
        0 <= e < v.def.extent_count,
    ensures
        !v.flush(flush_number, generation, v.def.extent_count as int).extent_dirty(e),
{
    let es = v.def.extent_size as int;
    let f = v.flush(flush_number, generation, v.def.extent_count as int);
    assert(e * es + es <= v.def.extent_count * es) by (nonlinear_arith)
        requires
            0 <= e < v.def.extent_count,
            0 <= es,
    ;
    assert(0 <= e * es) by (nonlinear_arith)
        requires
            0 <= e,
            0 <= es,
    ;
    assert(v.def.extent_count * es == es * v.def.extent_count) by (nonlinear_arith);
    assert forall|b: int| e * es <= b < e * es + es implies !#[trigger] f.dirty[b] by {}
}

/// Carries out a job against the region.
fn execute(region: &mut Region, kind: &JobKind) -> (r: Result<Reply, Error>)
    requires
        old(region).wf(),
    ensures
        final(region).wf(),
        final(region)@ == applied(*kind, old(region)@),
        match failure(*kind, old(region)@) {
            Some(e) => r matches Err(x) && x == e,
            None => r matches Ok(reply) && answers(reply, *kind, old(region)@),
        },
{
    match kind {
        JobKind::Read { start, count } => match region.read(*start, *count) {
            Ok(data) => Ok(Reply::Read { data }),
            Err(e) => Err(e),
        },
        JobKind::Write { start, count, data } => match region.write(*start, *count, data, false) {
            Ok(_) => Ok(Reply::Written),
            Err(e) => Err(e),
        },
        JobKind::Flush { flush_number, generation_number, extent_limit } => match region.flush(
            *flush_number,
            *generation_number,
            *extent_limit,
        ) {
            Ok(steps) => Ok(Reply::Flushed { steps }),
            Err(e) => Err(e),
        },
        JobKind::ExtentClose { extent } => match region.close_extent(*extent) {
            Ok(_) => Ok(Reply::Closed),
            Err(e) => Err(e),
        },
        JobKind::ExtentRepair { extent, source, content } => {
            let sent = match content {
                Some(data) => Some(data),
                None => None,
            };
            match region.repair_extent(*extent, *source, sent) {
                Ok(_) => Ok(Reply::Repaired),
                Err(e) => Err(e),
            }
        },
        JobKind::ExtentReopen { extent, generation } => match region.reopen_extent(
            *extent,
            *generation,
        ) {
            Ok(_) => Ok(Reply::Reopened),
            Err(e) => Err(e),
        },
        JobKind::ExtentVerify { extent } => {
            let steps = match region.flush_repaired(*extent) {
                Ok(steps) => steps,
                Err(e) => {
                    return Err(e);
                },
            };
            proof {
                old(region).lemma_view_wf();
                lemma_flushed_clean(
                    old(region)@,
                    max_of(old(region)@.flush_number),
                    old(region)@.generation[*extent as int],
                    *extent as int,
                );
            }
            match region.finish_repair(*extent) {
                Ok(_) => Ok(Reply::Verified { steps }),
                Err(e) => Err(e),
            }
        },
    }
}

/// The engine of one connection.
pub struct Downstairs {
    region: Region,
    work: Work,
    lossy: bool,
    return_errors: bool,
}

impl Downstairs {
    /// The invariant of the engine: the region and the dispatcher keep
    /// theirs, the dispatcher counts blocks per extent as the region does,
    /// and the extent under repair is left alone.
    pub closed spec fn wf(&self) -> bool {
        &&& self.region.wf()
        &&& self.work@.wf()
        &&& self.work@.extent_size == self.region@.def.extent_size
        &&& undisturbed(self.work@, self.region@.repair)
    }

    /// What the region holds.
    pub closed spec fn region_view(&self) -> RegionView {
        self.region@
    }

    /// The jobs that the dispatcher holds.
    pub closed spec fn work_view(&self) -> crate::work::WorkView {
        self.work@
    }

    /// Whether the search for work sometimes skips a round on request.
    pub closed spec fn is_lossy(&self) -> bool {
        self.lossy
    }

    /// Whether a failure is returned where a test asks for one.
    pub closed spec fn returns_errors(&self) -> bool {
        self.return_errors
    }

    /// What the invariant of the engine says of its parts: the region and
    /// the dispatcher keep their invariants, the dispatcher counts blocks
    /// per extent as the region does, and while an extent is under repair
    /// no read or write that touches it and no flush that covers it is in
    /// progress.
    pub proof fn lemma_wf_parts(&self)
        requires
            self.wf(),
        ensures
            self.region_view().wf(),
            self.work_view().wf(),
            self.work_view().extent_size == self.region_view().def.extent_size,
            undisturbed(self.work_view(), self.region_view().repair),
    {
        self.region.lemma_view_wf();
    }

    /// Builds the engine around a region. With `lossy` the search for work
    /// may be told to skip a round; with `return_errors` a failure is
    /// returned wherever a test asks for one.
    pub fn new(region: Region, lossy: bool, return_errors: bool) -> (d: Downstairs)
        requires
            region.wf(),
        ensures
            d.wf(),
            d.region_view() == region@,
            d.work_view().jobs.len() == 0,
            d.work_view().next_id == 0,
            d.work_view().extent_size == region@.def.extent_size,
            d.is_lossy() == lossy,
            d.returns_errors() == return_errors,
    {
        let work = Work::new(region.def().extent_size);
        Downstairs { region, work, lossy, return_errors }
    }

    /// The region.
    pub fn region(&self) -> (r: &Region)
        requires
            self.wf(),
        ensures
            r.wf(),
            r@ == self.region_view(),
    {
        &self.region
    }

    /// The dispatcher.
    pub fn work(&self) -> (w: &Work)
        ensures
            w@ == self.work_view(),
    {
        &self.work
    }

    /// Takes in a job; see `Work::submit`.
    pub fn submit(&mut self, kind: JobKind) -> (r: Option<u64>)
        requires
            old(self).wf(),
        ensures
            final(self).wf(),
            final(self).region_view() == old(self).region_view(),
            final(self).is_lossy() == old(self).is_lossy(),
            final(self).returns_errors() == old(self).returns_errors(),
            old(self).work_view().next_id < u64::MAX ==> r == Some(old(self).work_view().next_id)
                && final(self).work_view() == old(self).work_view().submitted(kind),
            old(self).work_view().next_id == u64::MAX ==> r is None && final(self).work_view()
                == old(self).work_view(),
    {
        let id = self.work.submit(kind);
        proof {
            let before = old(self).work@;
            let after = self.work@;
            assert forall|i: int|
                0 <= i < after.jobs.len() && (#[trigger] after.jobs[i]).state
                    is InProgress implies running(before, after.jobs[i].kind) by {
                assert(before.jobs[i] == after.jobs[i]);
            }
            lemma_still_undisturbed(before, after, self.region@.repair, self.region@.repair);
        }
        id
    }

    /// Looks for work. Every job in whose way nothing stands becomes
    /// `Ready`; see `Work::promote` for the one case in which a step of the
    /// repair under way is let past a flush. The oldest `Ready` job that
    /// the repair does not hold back is handed out. A lossy engine that is
    /// told to skip the round does nothing and hands out nothing.
    pub fn next_job(&mut self, skip: bool) -> (r: Option<u64>)
        requires
            old(self).wf(),
        ensures
            final(self).wf(),
            final(self).region_view() == old(self).region_view(),
            final(self).is_lossy() == old(self).is_lossy(),
            final(self).returns_errors() == old(self).returns_errors(),
            old(self).is_lossy() && skip ==> r is None && final(self).work_view()
                == old(self).work_view(),
            !(old(self).is_lossy() && skip) ==> {
                &&& final(self).work_view() == old(self).work_view().promoted(
                    old(self).region_view().repair,
                )
                &&& match r {
                    Some(id) => final(self).work_view().next_is(
                        id,
                        old(self).region_view().repair,
                    ),
                    None => final(self).work_view().none_startable(
                        old(self).region_view().repair,
                    ),
                }
            },
    {
        if self.lossy && skip {
            return None;
        }
        self.work.promote(self.region.repair());
        proof {
            let before = old(self).work@;
            let after = self.work@;
            assert forall|i: int|
                0 <= i < after.jobs.len() && (#[trigger] after.jobs[i]).state
                    is InProgress implies running(before, after.jobs[i].kind) by {
                assert(before.jobs[i] == after.jobs[i]);
            }
            lemma_still_undisturbed(before, after, self.region@.repair, self.region@.repair);
        }
        self.work.next_ready(self.region.repair())
    }

    /// Begins the job numbered `id` if it is `Ready` and the repair under
    /// way does not hold it back; see `Work::begin`.
    pub fn begin(&mut self, id: u64) -> (r: bool)
        requires
            old(self).wf(),
        ensures
            final(self).wf(),
            final(self).region_view() == old(self).region_view(),
            final(self).is_lossy() == old(self).is_lossy(),
            final(self).returns_errors() == old(self).returns_errors(),
            r == exists|i: int|
                #[trigger] old(self).work_view().is_at(id, i) && old(self).work_view().startable(
                    i,
                    old(self).region_view().repair,
                ),
            forall|i: int|
                #[trigger] old(self).work_view().is_at(id, i) && r ==> final(self).work_view()
                    == old(self).work_view().with_state(i, JobState::InProgress),
            !r ==> final(self).work_view() == old(self).work_view(),
    {
        let begun = self.work.begin(id, self.region.repair());
        proof {
            let before = old(self).work_view();
            let repair = old(self).region_view().repair;
            if begun {
                let i = choose|i: int| #[trigger] before.is_at(id, i)
                    && before.startable(i, repair);
                assert(before.is_at(id, i) && before.startable(i, repair));
                let after = self.work@;
                assert forall|x: int|
                    0 <= x < after.jobs.len() && (#[trigger] after.jobs[x]).state is InProgress
                        && !(after.jobs[x].kind is ExtentClose) implies !held(
                    after.jobs[x].kind,
                    repair,
                    after.extent_size as int,
                ) by {
                    if x != i {
                        assert(before.jobs[x] == after.jobs[x]);
                    }
                }
            }
        }
        begun
    }

    /// Carries out the job numbered `id`, which must be in progress, and
    /// records how it ended. With a fault reported the job fails with
    /// `IoFailure` and the region stays as it was. Otherwise the job is
    /// applied to the region and succeeds or fails as its kind says. For a
    /// job that is not in progress nothing happens and nothing is handed
    /// back.
    pub fn complete(&mut self, id: u64, fault: Fault) -> (r: Option<Completion>)
        requires
            old(self).wf(),
        ensures
            final(self).wf(),
            final(self).is_lossy() == old(self).is_lossy(),
            final(self).returns_errors() == old(self).returns_errors(),
            r is Some == exists|i: int|
                #[trigger] old(self).work_view().is_at(id, i)
                    && old(self).work_view().jobs[i].state is InProgress,
            r is None ==> final(self).region_view() == old(self).region_view()
                && final(self).work_view() == old(self).work_view(),
            r matches Some(done) ==> done.id == id,
            forall|i: int|
                #[trigger] old(self).work_view().is_at(id, i) && r is Some ==> {
                    let kind = old(self).work_view().jobs[i].kind;
                    let before = old(self).region_view();
                    let done = r->0;
                    if faulted(fault, old(self).returns_errors()) {
                        &&& done.result matches Err(e) && e == Error::IoFailure
                        &&& final(self).region_view() == before
                        &&& final(self).work_view() == old(self).work_view().with_state(
                            i,
                            JobState::Error { cause: Error::IoFailure },
                        )
                        &&& done.severity == reach(kind, Error::IoFailure, false)
                        &&& done.report == reported(done.severity, fault, before)
                    } else {
                        &&& final(self).region_view() == applied(kind, before)
                        &&& match failure(kind, before) {
                            Some(e) => {
                                &&& done.result matches Err(x) && x == e
                                &&& final(self).work_view() == old(self).work_view().with_state(
                                    i,
                                    JobState::Error { cause: e },
                                )
                                &&& done.severity == reach(
                                    kind,
                                    e,
                                    applied(kind, before).repair_exhausted(),
                                )
                                &&& done.report == reported(
                                    done.severity,
                                    fault,
                                    applied(kind, before),
                                )
                            },
                            None => {
                                &&& done.result matches Ok(reply) && answers(reply, kind, before)
                                &&& final(self).work_view() == old(self).work_view().with_state(
                                    i,
                                    JobState::Complete,
                                )
                                &&& done.severity == Severity::Job
                                &&& done.report is None
                            },
                        }
                    }
                },
    {
        let running = match self.work.state(id) {
            Some(JobState::InProgress) => true,
            _ => false,
        };
        if !running {
            return None;
        }
        proof {
            assert forall|x: int, y: int|
                0 <= x < self.work@.jobs.len() && 0 <= y < self.work@.jobs.len()
                    && (#[trigger] self.work@.jobs[x]).id == id
                        && (#[trigger] self.work@.jobs[y]).id
                    == id implies x == y by {
                lemma_one_job_per_id(self.work@, x, y);
            }
        }
        let failed = match fault {
            Fault::Clear => false,
            Fault::Storage { .. } => true,
            Fault::Injected => self.return_errors,
        };
        let kind = match self.work.kind(id) {
            Some(kind) => kind,
            None => {
                return None;
            },
        };
        let (result, reach) = if failed {
            (Err(Error::IoFailure), severity(kind, Error::IoFailure, false))
        } else {
            let result = execute(&mut self.region, kind);
            let reach = match &result {
                Ok(_) => Severity::Job,
                Err(e) => {
                    let exhausted = match self.region.repair() {
                        Some(state) => state.is_exhausted(),
                        None => false,
                    };
                    severity(kind, *e, exhausted)
                },
            };
            (result, reach)
        };
        let outcome = match &result {
            Ok(_) => Ok(()),
            Err(e) => Err(*e),
        };
        let recorded = self.work.finish(id, outcome);
        assert(recorded);
        proof {
            self.lemma_left_alone(*old(self), id);
        }
        let report = self.report(reach, fault);
        Some(Completion { id, result, severity: reach, report })
    }

    /// When a job in progress has ended, the extent under repair is still
    /// left alone, whatever the job did to the repair: a repair that was
    /// under way stays with its extent, and when an extent was just closed
    /// no job that reaches it is in progress, because the closing waited
    /// for the earlier ones and the later ones wait for it.
    proof fn lemma_left_alone(&self, pre: Downstairs, id: u64)
        requires
            pre.wf(),
            self.region.wf(),
            exists|i: int|
                {
                    &&& #[trigger] pre.work@.is_at(id, i)
                    &&& pre.work@.jobs[i].state is InProgress
                    &&& crate::job::finished(self.work@.jobs[i].state)
                    &&& self.work@ == pre.work@.with_state(i, self.work@.jobs[i].state)
                    &&& (self.region@ == pre.region@ || self.region@ == applied(
                        pre.work@.jobs[i].kind,
                        pre.region@,
                    ))
                },
        ensures
            undisturbed(self.work@, self.region@.repair),
    {
        let before = pre.work@;
        let after = self.work@;
        let es = before.extent_size as int;
        let i = choose|i: int|
            {
                &&& #[trigger] pre.work@.is_at(id, i)
                &&& pre.work@.jobs[i].state is InProgress
                &&& crate::job::finished(self.work@.jobs[i].state)
                &&& self.work@ == pre.work@.with_state(i, self.work@.jobs[i].state)
                &&& (self.region@ == pre.region@ || self.region@ == applied(
                    pre.work@.jobs[i].kind,
                    pre.region@,
                ))
            };
        let kind = before.jobs[i].kind;
        pre.region.lemma_view_wf();
        lemma_repair_moves(kind, pre.region@);
        assert forall|x: int|
            0 <= x < after.jobs.len() && (#[trigger] after.jobs[x]).state
                is InProgress implies running(before, after.jobs[x].kind) by {
            assert(x != i);
            assert(before.jobs[x] == after.jobs[x]);
        }
        if self.region@.repair is None || (pre.region@.repair is Some
            && pre.region@.repair->0.extent == self.region@.repair->0.extent) {
            lemma_still_undisturbed(before, after, pre.region@.repair, self.region@.repair);
        } else {
            let repair = self.region@.repair;
            assert forall|x: int|
                0 <= x < after.jobs.len() && (#[trigger] after.jobs[x]).state is InProgress
                    && !(after.jobs[x].kind is ExtentClose) implies !held(
                after.jobs[x].kind,
                repair,
                es,
            ) by {
                assert(x != i);
                assert(before.jobs[x] == after.jobs[x]);
                if held(before.jobs[x].kind, repair, es) {
                    assert(es > 0);
                    if x < i {
                        lemma_passes_nothing(before, i);
                        lemma_finish_in_order(before, x, i);
                    } else {
                        lemma_passes_nothing(before, x);
                        lemma_finish_in_order(before, i, x);
                    }
                }
            }
        }
    }

    /// What is reported of a failure of the given reach.
    fn report(&self, severity: Severity, fault: Fault) -> (r: Option<FatalReport>)
        requires
            self.region.wf(),
        ensures
            r == reported(severity, fault, self.region@),
    {
        let extent = match severity {
            Severity::Job => None,
            Severity::Connection => match self.region.repair() {
                Some(state) => Some(state.extent),
                None => None,
            },
            Severity::Process => match fault {
                Fault::Storage { extent } => Some(extent),
                _ => None,
            },
        };
        match extent {
            Some(e) => match self.region.extent_meta(e) {
                Some(meta) => Some(
                    FatalReport {
                        extent: e,
                        generation: meta.generation,
                        flush_number: meta.flush_number,
                    },
                ),
                None => None,
            },
            None => None,
        }
    }

    /// Notes that the result of the job numbered `id` was acknowledged;
    /// see `Work::acknowledge`.
    pub fn acknowledge(&mut self, id: u64) -> (r: bool)
        requires
            old(self).wf(),
        ensures
            final(self).wf(),
            final(self).region_view() == old(self).region_view(),
            final(self).is_lossy() == old(self).is_lossy(),
            final(self).returns_errors() == old(self).returns_errors(),
            r == exists|i: int|
                #[trigger] old(self).work_view().is_at(id, i) && crate::job::finished(
                    old(self).work_view().jobs[i].state,
                ),
            forall|i: int|
                #[trigger] old(self).work_view().is_at(id, i) && r ==> final(self).work_view()
                    == old(self).work_view().with_ack(i),
            !r ==> final(self).work_view() == old(self).work_view(),
    {
        let noted = self.work.acknowledge(id);
        proof {
            let before = old(self).work@;
            let after = self.work@;
            assert forall|i: int|
                0 <= i < after.jobs.len() && (#[trigger] after.jobs[i]).state
                    is InProgress implies running(before, after.jobs[i].kind) by {
                assert(before.jobs[i].kind == after.jobs[i].kind);
                assert(before.jobs[i].state == after.jobs[i].state);
            }
            lemma_still_undisturbed(before, after, self.region@.repair, self.region@.repair);
        }
        noted
    }

    /// Removes the job numbered `id` once it has finished, was
    /// acknowledged, and no unfinished job waits for it; see
    /// `Work::retire`.
    pub fn retire(&mut self, id: u64) -> (r: bool)
        requires
            old(self).wf(),
        ensures
            final(self).wf(),
            final(self).region_view() == old(self).region_view(),
            final(self).is_lossy() == old(self).is_lossy(),
            final(self).returns_errors() == old(self).returns_errors(),
            r == exists|i: int|
                #[trigger] old(self).work_view().is_at(id, i) && old(self).work_view().retirable(i),
            forall|i: int|
                #[trigger] old(self).work_view().is_at(id, i) && r ==> final(self).work_view()
                    == old(self).work_view().without(i),
            !r ==> final(self).work_view() == old(self).work_view(),
    {
        let retired = self.work.retire(id);
        proof {
            let before = old(self).work_view();
            let after = self.work@;
            if retired {
                let i = choose|i: int| #[trigger] before.is_at(id, i) && before.retirable(i);
                assert(before.is_at(id, i) && before.retirable(i));
                assert forall|x: int|
                    0 <= x < after.jobs.len() && (#[trigger] after.jobs[x]).state
                        is InProgress implies running(before, after.jobs[x].kind) by {
                    if x < i {
                        assert(before.jobs[x] == after.jobs[x]);
                    } else {
                        assert(before.jobs[x + 1] == after.jobs[x]);
                    }
                }
            }
            lemma_still_undisturbed(before, after, self.region@.repair, self.region@.repair);
        }
        retired
    }

    /// Gives up every job whose work was not yet begun, as when the
    /// connection is torn down; see `Work::teardown`. Jobs in progress stay
    /// and may still be completed.
    pub fn teardown(&mut self) -> (given_up: usize)
        requires
            old(self).wf(),
        ensures
            final(self).wf(),
            final(self).region_view() == old(self).region_view(),
            final(self).is_lossy() == old(self).is_lossy(),
            final(self).returns_errors() == old(self).returns_errors(),
            final(self).work_view().jobs == crate::work::begun_only(old(self).work_view().jobs),
            final(self).work_view().next_id == old(self).work_view().next_id,
            final(self).work_view().extent_size == old(self).work_view().extent_size,
            given_up == old(self).work_view().jobs.len() - final(self).work_view().jobs.len(),
    {
        let given_up = self.work.teardown();
        proof {
            let before = old(self).work@;
            let after = self.work@;
            lemma_begun_only_members(before.jobs);
            assert forall|i: int|
                0 <= i < after.jobs.len() && (#[trigger] after.jobs[i]).state
                    is InProgress implies running(before, after.jobs[i].kind) by {
                let j = choose|j: int|
                    0 <= j < before.jobs.len() && before.jobs[j] == after.jobs[i];
                assert(before.jobs[j].state is InProgress);
            }
            lemma_still_undisturbed(before, after, self.region@.repair, self.region@.repair);
        }
        given_up
    }
}

} // verus!
