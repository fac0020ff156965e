//! The job dispatcher: it takes jobs in the order in which they arrive,
//! records which earlier jobs each one has to wait for, and lets a job
//! start only when those have finished.
//!
//! There is one way past an unfinished job. A later step of a repair may
//! pass a flush that the repair of its own extent keeps back: a flush that
//! covers the extent under repair, or one that itself waits for a job that
//! the repair holds back. Such a flush cannot finish before the repair
//! does, so the repair cannot wait for it. What a step has passed is kept
//! on record with it.

use vstd::prelude::*;
use crate::error::Error;
use crate::job::{begun, cleared, finished, held, needs, JobKind, JobState};
use crate::repair::RepairState;

verus! {

/// One job in the dispatcher.
struct Job {
    id: u64,
    kind: JobKind,
    deps: Vec<u64>,
    passed: Vec<u64>,
    state: JobState,
    acked: bool,
}

/// What the dispatcher knows of one job.
pub struct JobView {
    /// The number the job got on arrival.
    pub id: u64,
    /// What the job does.
    pub kind: JobKind,
    /// The earlier jobs that it waits for.
    pub deps: Seq<u64>,
    /// Those of them that it was let past while they had not finished.
    pub passed: Set<u64>,
    /// Where the job stands.
    pub state: JobState,
    /// Whether its result was acknowledged.
    pub acked: bool,
}

impl View for Job {
    type V = JobView;

    closed spec fn view(&self) -> JobView {
        JobView {
            id: self.id,
            kind: self.kind,
            deps: self.deps@,
            passed: self.passed@.to_set(),
            state: self.state,
            acked: self.acked,
        }
    }
}

/// Whether a newly arrived job of kind `kind` has to wait for `job`.
pub open spec fn is_dependency(job: JobView, kind: JobKind, es: int) -> bool {
    !finished(job.state) && needs(kind, job.kind, es)
}

/// The jobs among `jobs`, in order, that a newly arrived job of kind
/// `kind` has to wait for.
pub open spec fn dependencies_among(jobs: Seq<JobView>, kind: JobKind, es: int) -> Seq<u64>
    decreases jobs.len(),
{
    if jobs.len() == 0 {
        Seq::empty()
    } else {
        let rest = dependencies_among(jobs.drop_last(), kind, es);
        if is_dependency(jobs.last(), kind, es) {
            rest.push(jobs.last().id)
        } else {
            rest
        }
    }
}

/// A job is among the dependencies exactly when it is unfinished and has to
/// be waited for.
pub proof fn lemma_dependencies(jobs: Seq<JobView>, kind: JobKind, es: int)
    ensures
        forall|d: u64|
            dependencies_among(jobs, kind, es).contains(d) <==> exists|i: int|
                0 <= i < jobs.len() && is_dependency(#[trigger] jobs[i], kind, es) && jobs[i].id
                    == d,
    decreases jobs.len(),
{
    let all = dependencies_among(jobs, kind, es);
    if jobs.len() == 0 {
        assert forall|d: u64| !all.contains(d) by {}
    } else {
        let init = jobs.drop_last();
        let last = jobs.last();
        let rest = dependencies_among(init, kind, es);
        lemma_dependencies(init, kind, es);
        assert forall|d: u64|
            all.contains(d) <==> exists|i: int|
                0 <= i < jobs.len() && is_dependency(#[trigger] jobs[i], kind, es) && jobs[i].id
                    == d by {
            if all.contains(d) {
                let k = choose|k: int| 0 <= k < all.len() && all[k] == d;
                if is_dependency(last, kind, es) && k == rest.len() {
                    assert(is_dependency(jobs[jobs.len() - 1], kind, es));
                } else {
                    assert(rest[k] == d);
                    assert(rest.contains(d));
                    let i = choose|i: int|
                        0 <= i < init.len() && is_dependency(#[trigger] init[i], kind, es)
                            && init[i].id == d;
                    assert(jobs[i] == init[i]);
                }
            }
            if exists|i: int|
                0 <= i < jobs.len() && is_dependency(#[trigger] jobs[i], kind, es) && jobs[i].id
                    == d {
                let i = choose|i: int|
                    0 <= i < jobs.len() && is_dependency(#[trigger] jobs[i], kind, es)
                        && jobs[i].id == d;
                if i == jobs.len() - 1 {
                    assert(all[rest.len() as int] == d);
                } else {
                    assert(init[i] == jobs[i]);
                    assert(rest.contains(d));
                    let k = choose|k: int| 0 <= k < rest.len() && rest[k] == d;
                    assert(all[k] == d);
                }
            }
        }
    }
}

/// The jobs that the dispatcher holds, in the order of their arrival.
pub struct WorkView {
    /// The jobs, oldest first.
    pub jobs: Seq<JobView>,
    /// The number that the next job will get.
    pub next_id: u64,
    /// Blocks per extent of the region that the jobs work on.
    pub extent_size: u64,
}

impl WorkView {
    /// Whether the job numbered `d` has finished or was removed.
    pub open spec fn dep_done(self, d: u64) -> bool {
        forall|i: int|
            0 <= i < self.jobs.len() && (#[trigger] self.jobs[i]).id == d ==> finished(
                self.jobs[i].state,
            )
    }

    /// Whether every job that job `j` waits for has finished.
    pub open spec fn deps_done(self, j: int) -> bool {
        forall|k: int|
            0 <= k < self.jobs[j].deps.len() ==> self.dep_done(#[trigger] self.jobs[j].deps[k])
    }

    /// Whether the repair under way keeps job `x` back: it holds the job
    /// itself, or it holds an unfinished job that arrived before it. A
    /// flush waits for every job before it, so a flush that is kept back
    /// cannot finish while the repair is under way.
    pub open spec fn kept_back(self, x: int, repair: Option<RepairState>) -> bool {
        held(self.jobs[x].kind, repair, self.extent_size as int) || exists|y: int|
            0 <= y < x && !finished((#[trigger] self.jobs[y]).state) && held(
                self.jobs[y].kind,
                repair,
                self.extent_size as int,
            )
    }

    /// Whether job `j` may pass job `x` while `repair` is under way: `j`
    /// is a later step of that very repair, and `x` is a flush that the
    /// repair keeps back.
    pub open spec fn may_pass(self, j: int, x: int, repair: Option<RepairState>) -> bool {
        &&& self.jobs[j].kind.is_continuation()
        &&& self.jobs[x].kind is Flush
        &&& repair is Some
        &&& self.jobs[j].kind.repair_target() == Some(repair->0.extent)
        &&& self.kept_back(x, repair)
    }

    /// Whether the job numbered `d` no longer stands in the way of job
    /// `j`: it has finished or was removed, or `j` may pass it.
    pub open spec fn dep_clear(self, j: int, d: u64, repair: Option<RepairState>) -> bool {
        self.dep_done(d) || exists|x: int|
            #[trigger] self.is_at(d, x) && self.may_pass(j, x, repair)
    }

    /// Whether nothing that job `j` waits for stands in its way while
    /// `repair` is under way.
    pub open spec fn can_clear(self, j: int, repair: Option<RepairState>) -> bool {
        forall|k: int|
            0 <= k < self.jobs[j].deps.len() ==> self.dep_clear(
                j,
                #[trigger] self.jobs[j].deps[k],
                repair,
            )
    }

    /// The jobs that job `j` waits for and that have not finished.
    pub open spec fn undone(self, j: int) -> Set<u64> {
        Set::new(|d: u64| self.jobs[j].deps.contains(d) && !self.dep_done(d))
    }

    /// Whether every job that job `j` waits for has finished or is on
    /// record as passed.
    pub open spec fn deps_cleared(self, j: int) -> bool {
        forall|k: int|
            0 <= k < self.jobs[j].deps.len() ==> self.dep_done(#[trigger] self.jobs[j].deps[k])
                || self.jobs[j].passed.contains(self.jobs[j].deps[k])
    }

    /// Whether job `i`, counted in the order of arrival, is the job
    /// numbered `id`.
    pub open spec fn is_at(self, id: u64, i: int) -> bool {
        0 <= i < self.jobs.len() && self.jobs[i].id == id
    }

    /// Whether the dispatcher holds a job numbered `id`.
    pub open spec fn has(self, id: u64) -> bool {
        exists|i: int| #[trigger] self.is_at(id, i)
    }

    /// Whether job `i` is the oldest job that may be begun while `repair`
    /// is under way.
    pub open spec fn first_startable(self, i: int, repair: Option<RepairState>) -> bool {
        &&& 0 <= i < self.jobs.len()
        &&& self.startable(i, repair)
        &&& forall|x: int| 0 <= x < i ==> !self.startable(x, repair)
    }

    /// Whether the job numbered `id` is the oldest job that may be begun
    /// while `repair` is under way.
    pub open spec fn next_is(self, id: u64, repair: Option<RepairState>) -> bool {
        exists|i: int| #[trigger] self.is_at(id, i) && self.first_startable(i, repair)
    }

    /// Whether no job may be begun while `repair` is under way.
    pub open spec fn none_startable(self, repair: Option<RepairState>) -> bool {
        forall|x: int| 0 <= x < self.jobs.len() ==> !self.startable(x, repair)
    }

    /// Whether some unfinished job waits for the job numbered `id`.
    pub open spec fn awaited(self, id: u64) -> bool {
        exists|j: int|
            0 <= j < self.jobs.len() && !finished((#[trigger] self.jobs[j]).state)
                && self.jobs[j].deps.contains(id)
    }

    /// The invariant of the dispatcher. Job numbers rise with arrival and
    /// lie below the next number. A job waits only for jobs that arrived
    /// before it, only for jobs that it has to wait for, and for every such
    /// job that had not finished when it arrived. Every job that a job
    /// that left the state `New` waits for has finished, unless it is on
    /// record as passed; only a later step of a repair has passed
    /// anything, and only flushes that it waited for. Only a finished job
    /// is acknowledged.
    pub open spec fn wf(self) -> bool {
        &&& forall|i: int, j: int|
            #![trigger self.jobs[i], self.jobs[j]]
            0 <= i < j < self.jobs.len() ==> self.jobs[i].id < self.jobs[j].id
        &&& forall|i: int|
            0 <= i < self.jobs.len() ==> (#[trigger] self.jobs[i]).id < self.next_id
        &&& forall|i: int, k: int|
            #![trigger self.jobs[i].deps[k]]
            0 <= i < self.jobs.len() && 0 <= k < self.jobs[i].deps.len() ==> self.jobs[i].deps[k]
                < self.jobs[i].id
        &&& forall|i: int|
            0 <= i < self.jobs.len() && cleared((#[trigger] self.jobs[i]).state)
                ==> self.deps_cleared(i)
        &&& forall|i: int, d: u64|
            #![trigger self.jobs[i].passed.contains(d)]
            0 <= i < self.jobs.len() && self.jobs[i].passed.contains(d)
                ==> self.jobs[i].kind.is_continuation() && self.jobs[i].deps.contains(d)
                && cleared(self.jobs[i].state)
        &&& forall|i: int, j: int|
            #![trigger self.jobs[i], self.jobs[j]]
            0 <= i < self.jobs.len() && 0 <= j < self.jobs.len() && self.jobs[j].passed.contains(
                self.jobs[i].id,
            ) ==> self.jobs[i].kind is Flush
        &&& forall|i: int, j: int|
            #![trigger self.jobs[i], self.jobs[j]]
            0 <= i < j < self.jobs.len() && is_dependency(
                self.jobs[i],
                self.jobs[j].kind,
                self.extent_size as int,
            ) ==> self.jobs[j].deps.contains(self.jobs[i].id)
        &&& forall|i: int, j: int|
            #![trigger self.jobs[i], self.jobs[j]]
            0 <= i < self.jobs.len() && 0 <= j < self.jobs.len() && self.jobs[j].deps.contains(
                self.jobs[i].id,
            ) ==> needs(self.jobs[j].kind, self.jobs[i].kind, self.extent_size as int)
        &&& forall|i: int|
            0 <= i < self.jobs.len() && (#[trigger] self.jobs[i]).acked ==> finished(
                self.jobs[i].state,
            )
    }

    /// The dispatcher after a job of kind `kind` arrived: it is the newest
    /// job, it is `New`, and it waits for every unfinished job that it has
    /// to wait for.
    pub open spec fn submitted(self, kind: JobKind) -> WorkView {
        WorkView {
            jobs: self.jobs.push(
                JobView {
                    id: self.next_id,
                    kind,
                    deps: dependencies_among(self.jobs, kind, self.extent_size as int),
                    passed: Set::empty(),
                    state: JobState::New,
                    acked: false,
                },
            ),
            next_id: (self.next_id + 1) as u64,
            ..self
        }
    }

    /// The dispatcher with job `i` in another state.
    pub open spec fn with_state(self, i: int, state: JobState) -> WorkView {
        WorkView { jobs: self.jobs.update(i, JobView { state, ..self.jobs[i] }), ..self }
    }

    /// The dispatcher with job `i` acknowledged.
    pub open spec fn with_ack(self, i: int) -> WorkView {
        WorkView { jobs: self.jobs.update(i, JobView { acked: true, ..self.jobs[i] }), ..self }
    }

    /// The dispatcher without job `i`.
    pub open spec fn without(self, i: int) -> WorkView {
        WorkView { jobs: self.jobs.remove(i), ..self }
    }

    /// The dispatcher with job `i` let out of the state `New`, with what
    /// it has passed on record.
    pub open spec fn cleared_with(self, i: int, passed: Set<u64>) -> WorkView {
        WorkView {
            jobs: self.jobs.update(i, JobView { state: JobState::Ready, passed, ..self.jobs[i] }),
            ..self
        }
    }

    /// The dispatcher after the search for work while `repair` is under
    /// way: every `New` job in whose way nothing stands became `Ready`.
    /// That is so when every job it waits for has finished, and for a
    /// later step of the repair under way also when the jobs that have not
    /// finished are flushes that this repair keeps back; those are put on
    /// record as passed.
    pub open spec fn promoted(self, repair: Option<RepairState>) -> WorkView {
        WorkView {
            jobs: Seq::new(
                self.jobs.len(),
                |i: int|
                    if self.jobs[i].state is New && self.can_clear(i, repair) {
                        JobView {
                            state: JobState::Ready,
                            passed: self.undone(i),
                            ..self.jobs[i]
                        }
                    } else {
                        self.jobs[i]
                    },
            ),
            ..self
        }
    }

    /// Whether job `i` may be begun while `repair` is under way: it is
    /// `Ready` and not held back by the repair.
    pub open spec fn startable(self, i: int, repair: Option<RepairState>) -> bool {
        self.jobs[i].state is Ready && !held(self.jobs[i].kind, repair, self.extent_size as int)
    }

    /// Whether job `i` may be removed: it has finished, its result was
    /// acknowledged, and no unfinished job waits for it.
    pub open spec fn retirable(self, i: int) -> bool {
        finished(self.jobs[i].state) && self.jobs[i].acked && !self.awaited(self.jobs[i].id)
    }
}

/// The arrival of a job keeps the invariant.
pub proof fn lemma_submit_wf(w: WorkView, kind: JobKind)
    requires
        w.wf(),
        w.next_id < u64::MAX,
    ensures
        w.submitted(kind).wf(),
{
    let s = w.submitted(kind);
    let n = w.jobs.len() as int;
    let es = w.extent_size as int;
    lemma_dependencies(w.jobs, kind, es);
    assert forall|i: int| 0 <= i < n implies s.jobs[i] == w.jobs[i] by {}
    assert forall|i: int, k: int|
        #![trigger s.jobs[i].deps[k]]
        0 <= i < s.jobs.len() && 0 <= k < s.jobs[i].deps.len() implies s.jobs[i].deps[k]
            < s.jobs[i].id by {
        if i == n {
            assert(s.jobs[n].deps.contains(s.jobs[n].deps[k]));
        } else {
            assert(w.jobs[i].deps[k] < w.jobs[i].id);
        }
    }
    assert forall|i: int| 0 <= i < s.jobs.len() && cleared((#[trigger] s.jobs[i]).state)
        implies s.deps_cleared(i) by {
        assert(i < n);
        assert(w.deps_cleared(i));
        assert forall|k: int| 0 <= k < s.jobs[i].deps.len() implies s.dep_done(
            #[trigger] s.jobs[i].deps[k],
        ) || s.jobs[i].passed.contains(s.jobs[i].deps[k]) by {
            let d = s.jobs[i].deps[k];
            assert(w.dep_done(w.jobs[i].deps[k]) || w.jobs[i].passed.contains(w.jobs[i].deps[k]));
            assert(w.jobs[i].deps[k] < w.jobs[i].id);
            if w.dep_done(d) {
                assert forall|x: int| 0 <= x < s.jobs.len() && (#[trigger] s.jobs[x]).id == d
                    implies finished(s.jobs[x].state) by {
                    if x < n {
                        assert(w.jobs[x].id == d);
                    }
                }
            }
        }
    }
    assert forall|i: int, j: int|
        #![trigger s.jobs[i], s.jobs[j]]
        0 <= i < j < s.jobs.len() && is_dependency(s.jobs[i], s.jobs[j].kind, es)
            implies s.jobs[j].deps.contains(
            s.jobs[i].id,
        ) by {
        if j == n {
            assert(is_dependency(w.jobs[i], kind, es));
        } else {
            assert(is_dependency(w.jobs[i], w.jobs[j].kind, es));
        }
    }
    assert forall|i: int, j: int|
        #![trigger s.jobs[i], s.jobs[j]]
        0 <= i < s.jobs.len() && 0 <= j < s.jobs.len() && s.jobs[j].deps.contains(
            s.jobs[i].id,
        ) implies needs(s.jobs[j].kind, s.jobs[i].kind, es) by {
        if j == n {
            let x = choose|x: int|
                0 <= x < w.jobs.len() && is_dependency(#[trigger] w.jobs[x], kind, es)
                    && w.jobs[x].id == s.jobs[i].id;
            if i < n {
                if x < i {
                    assert(w.jobs[x].id < w.jobs[i].id);
                }
                if i < x {
                    assert(w.jobs[i].id < w.jobs[x].id);
                }
                assert(x == i);
            } else {
                assert(w.jobs[x].id < w.next_id);
            }
        } else {
            let k = choose|k: int| 0 <= k < w.jobs[j].deps.len() && w.jobs[j].deps[k]
                == s.jobs[i].id;
            assert(w.jobs[j].deps[k] < w.jobs[j].id);
            assert(w.jobs[j].id < w.next_id);
            assert(i < n);
            assert(w.jobs[j].deps.contains(w.jobs[i].id));
        }
    }
}

/// A job may move forward without harm to the invariant: a finished job
/// stays finished, no job goes back to `New`, and a job leaves `New` only
/// when all that it waits for has finished or is on record as passed.
pub proof fn lemma_state_wf(w: WorkView, i: int, state: JobState)
    requires
        w.wf(),
        0 <= i < w.jobs.len(),
        finished(w.jobs[i].state) ==> finished(state),
        cleared(w.jobs[i].state) ==> cleared(state),
        cleared(state) ==> w.deps_cleared(i),
        w.jobs[i].acked ==> finished(state),
    ensures
        w.with_state(i, state).wf(),
{
    let s = w.with_state(i, state);
    let es = w.extent_size as int;
    assert forall|x: int| 0 <= x < s.jobs.len() implies (#[trigger] s.jobs[x]).id == w.jobs[x].id
        && s.jobs[x].deps == w.jobs[x].deps && s.jobs[x].kind == w.jobs[x].kind
        && s.jobs[x].passed == w.jobs[x].passed && (finished(w.jobs[x].state) ==> finished(
        s.jobs[x].state,
    )) by {}
    assert forall|d: u64| w.dep_done(d) implies s.dep_done(d) by {
        assert forall|x: int| 0 <= x < s.jobs.len() && (#[trigger] s.jobs[x]).id == d
            implies finished(
            s.jobs[x].state,
        ) by {
            assert(w.jobs[x].id == d);
        }
    }
    assert forall|x: int| 0 <= x < s.jobs.len() && cleared((#[trigger] s.jobs[x]).state)
        implies s.deps_cleared(x) by {
        assert(w.deps_cleared(x)) by {
            if x != i {
                assert(cleared(w.jobs[x].state));
            }
        }
        assert forall|k: int| 0 <= k < s.jobs[x].deps.len() implies s.dep_done(
            #[trigger] s.jobs[x].deps[k],
        ) || s.jobs[x].passed.contains(s.jobs[x].deps[k]) by {
            assert(w.dep_done(w.jobs[x].deps[k]) || w.jobs[x].passed.contains(
                w.jobs[x].deps[k],
            ));
        }
    }
    assert forall|a: int, b: int|
        #![trigger s.jobs[a], s.jobs[b]]
        0 <= a < b < s.jobs.len() implies s.jobs[a].id < s.jobs[b].id by {
        assert(w.jobs[a].id < w.jobs[b].id);
    }
    assert forall|a: int, k: int|
        #![trigger s.jobs[a].deps[k]]
        0 <= a < s.jobs.len() && 0 <= k < s.jobs[a].deps.len() implies s.jobs[a].deps[k]
            < s.jobs[a].id by {
        assert(w.jobs[a].deps[k] < w.jobs[a].id);
    }
    assert forall|a: int, b: int|
        #![trigger s.jobs[a], s.jobs[b]]
        0 <= a < b < s.jobs.len() && is_dependency(s.jobs[a], s.jobs[b].kind, es)
            implies s.jobs[b].deps.contains(
            s.jobs[a].id,
        ) by {
        assert(is_dependency(w.jobs[a], w.jobs[b].kind, es));
        assert(w.jobs[b].deps.contains(w.jobs[a].id));
    }
    assert forall|a: int, b: int|
        #![trigger s.jobs[a], s.jobs[b]]
        0 <= a < s.jobs.len() && 0 <= b < s.jobs.len() && s.jobs[b].deps.contains(
            s.jobs[a].id,
        ) implies needs(s.jobs[b].kind, s.jobs[a].kind, es) by {
        assert(w.jobs[b].deps.contains(w.jobs[a].id));
    }
}

/// Two jobs of which the later has to wait for the earlier finish in the
/// order of their arrival: once the later one has left the state `New`,
/// and so before its work is begun, the earlier one has finished, unless
/// the later one has it on record as passed.
pub proof fn lemma_finish_in_order(w: WorkView, i: int, j: int)
    requires
        w.wf(),
        0 <= i < j < w.jobs.len(),
        needs(w.jobs[j].kind, w.jobs[i].kind, w.extent_size as int),
        cleared(w.jobs[j].state),
        !w.jobs[j].passed.contains(w.jobs[i].id),
    ensures
        finished(w.jobs[i].state),
{
    if !finished(w.jobs[i].state) {
        assert(is_dependency(w.jobs[i], w.jobs[j].kind, w.extent_size as int));
        assert(w.jobs[j].deps.contains(w.jobs[i].id));
        let k = choose|k: int| 0 <= k < w.jobs[j].deps.len() && w.jobs[j].deps[k] == w.jobs[i].id;
        assert(w.deps_cleared(j));
        assert(w.dep_done(w.jobs[j].deps[k]) || w.jobs[j].passed.contains(w.jobs[j].deps[k]));
    }
}

/// A job that is no later step of a repair has passed nothing.
pub proof fn lemma_passes_nothing(w: WorkView, j: int)
    requires
        w.wf(),
        0 <= j < w.jobs.len(),
        !w.jobs[j].kind.is_continuation(),
    ensures
        forall|d: u64| !w.jobs[j].passed.contains(d),
{
    assert forall|d: u64| !w.jobs[j].passed.contains(d) by {
        if w.jobs[j].passed.contains(d) {
            assert(w.jobs[j].kind.is_continuation());
        }
    }
}

/// Letting a job out of the state `New` keeps the invariant, when nothing
/// stands in its way and the jobs it waits for that have not finished are
/// put on record as passed.
pub proof fn lemma_cleared_wf(w: WorkView, i: int, repair: Option<RepairState>)
    requires
        w.wf(),
        0 <= i < w.jobs.len(),
        w.jobs[i].state is New,
        w.can_clear(i, repair),
    ensures
        w.cleared_with(i, w.undone(i)).wf(),
{
    let s = w.cleared_with(i, w.undone(i));
    let es = w.extent_size as int;
    assert forall|x: int| 0 <= x < s.jobs.len() implies (#[trigger] s.jobs[x]).id == w.jobs[x].id
        && s.jobs[x].deps == w.jobs[x].deps && s.jobs[x].kind == w.jobs[x].kind
        && s.jobs[x].acked == w.jobs[x].acked && finished(s.jobs[x].state) == finished(
        w.jobs[x].state,
    ) && (x != i ==> s.jobs[x] == w.jobs[x]) by {}
    assert forall|d: u64| w.dep_done(d) implies s.dep_done(d) by {
        assert forall|x: int| 0 <= x < s.jobs.len() && (#[trigger] s.jobs[x]).id == d
            implies finished(s.jobs[x].state) by {
            assert(w.jobs[x].id == d);
        }
    }
    assert forall|x: int| 0 <= x < s.jobs.len() && cleared((#[trigger] s.jobs[x]).state)
        implies s.deps_cleared(x) by {
        if x == i {
            assert forall|k: int| 0 <= k < s.jobs[x].deps.len() implies s.dep_done(
                #[trigger] s.jobs[x].deps[k],
            ) || s.jobs[x].passed.contains(s.jobs[x].deps[k]) by {
                let d = w.jobs[i].deps[k];
                if !w.dep_done(d) {
                    assert(w.jobs[i].deps.contains(d));
                    assert(w.undone(i).contains(d));
                }
            }
        } else {
            assert(cleared(w.jobs[x].state));
            assert(w.deps_cleared(x));
            assert forall|k: int| 0 <= k < s.jobs[x].deps.len() implies s.dep_done(
                #[trigger] s.jobs[x].deps[k],
            ) || s.jobs[x].passed.contains(s.jobs[x].deps[k]) by {
                assert(w.dep_done(w.jobs[x].deps[k]) || w.jobs[x].passed.contains(
                    w.jobs[x].deps[k],
                ));
            }
        }
    }
    assert forall|x: int, d: u64|
        #![trigger s.jobs[x].passed.contains(d)]
        0 <= x < s.jobs.len() && s.jobs[x].passed.contains(d)
            implies s.jobs[x].kind.is_continuation() && s.jobs[x].deps.contains(d) && cleared(
            s.jobs[x].state,
        ) by {
        if x == i {
            let k = choose|k: int| 0 <= k < w.jobs[i].deps.len() && w.jobs[i].deps[k] == d;
            assert(w.dep_clear(i, w.jobs[i].deps[k], repair));
            let y = choose|y: int| #[trigger] w.is_at(d, y) && w.may_pass(i, y, repair);
        } else {
            assert(w.jobs[x].passed.contains(d));
        }
    }
    assert forall|a: int, b: int|
        #![trigger s.jobs[a], s.jobs[b]]
        0 <= a < s.jobs.len() && 0 <= b < s.jobs.len() && s.jobs[b].passed.contains(
            s.jobs[a].id,
        ) implies s.jobs[a].kind is Flush by {
        if b == i {
            let d = w.jobs[a].id;
            let k = choose|k: int| 0 <= k < w.jobs[i].deps.len() && w.jobs[i].deps[k] == d;
            assert(w.dep_clear(i, w.jobs[i].deps[k], repair));
            let y = choose|y: int| #[trigger] w.is_at(d, y) && w.may_pass(i, y, repair);
            lemma_one_job_per_id(w, a, y);
        } else {
            assert(w.jobs[b].passed.contains(w.jobs[a].id));
        }
    }
    assert forall|a: int, b: int|
        #![trigger s.jobs[a], s.jobs[b]]
        0 <= a < b < s.jobs.len() implies s.jobs[a].id < s.jobs[b].id by {
        assert(w.jobs[a].id < w.jobs[b].id);
    }
    assert forall|a: int, k: int|
        #![trigger s.jobs[a].deps[k]]
        0 <= a < s.jobs.len() && 0 <= k < s.jobs[a].deps.len() implies s.jobs[a].deps[k]
            < s.jobs[a].id by {
        assert(w.jobs[a].deps[k] < w.jobs[a].id);
    }
    assert forall|a: int, b: int|
        #![trigger s.jobs[a], s.jobs[b]]
        0 <= a < b < s.jobs.len() && is_dependency(s.jobs[a], s.jobs[b].kind, es)
            implies s.jobs[b].deps.contains(s.jobs[a].id) by {
        assert(is_dependency(w.jobs[a], w.jobs[b].kind, es));
        assert(w.jobs[b].deps.contains(w.jobs[a].id));
    }
    assert forall|a: int, b: int|
        #![trigger s.jobs[a], s.jobs[b]]
        0 <= a < s.jobs.len() && 0 <= b < s.jobs.len() && s.jobs[b].deps.contains(
            s.jobs[a].id,
        ) implies needs(s.jobs[b].kind, s.jobs[a].kind, es) by {
        assert(w.jobs[b].deps.contains(w.jobs[a].id));
    }
    assert forall|a: int| 0 <= a < s.jobs.len() && (#[trigger] s.jobs[a]).acked implies finished(
        s.jobs[a].state,
    ) by {
        assert(w.jobs[a].acked);
    }
}

/// The jobs of `jobs` whose work was begun, in order.
pub open spec fn begun_only(jobs: Seq<JobView>) -> Seq<JobView>
    decreases jobs.len(),
{
    if jobs.len() == 0 {
        Seq::empty()
    } else if begun(jobs.first().state) {
        seq![jobs.first()] + begun_only(jobs.drop_first())
    } else {
        begun_only(jobs.drop_first())
    }
}

/// Every job that stays after the jobs not yet begun were given up is one
/// of the jobs that were there.
pub proof fn lemma_begun_only_members(jobs: Seq<JobView>)
    ensures
        forall|i: int|
            0 <= i < begun_only(jobs).len() ==> exists|j: int|
                0 <= j < jobs.len() && jobs[j] == #[trigger] begun_only(jobs)[i],
    decreases jobs.len(),
{
    if jobs.len() > 0 {
        let rest = jobs.drop_first();
        lemma_begun_only_members(rest);
        assert forall|i: int| 0 <= i < begun_only(jobs).len() implies exists|j: int|
            0 <= j < jobs.len() && jobs[j] == #[trigger] begun_only(jobs)[i] by {
            if begun(jobs.first().state) && i == 0 {
                assert(jobs[0] == begun_only(jobs)[0]);
            } else {
                let k = if begun(jobs.first().state) {
                    i - 1
                } else {
                    i
                };
                assert(begun_only(rest)[k] == begun_only(jobs)[i]);
                let j = choose|j: int| 0 <= j < rest.len() && rest[j] == begun_only(rest)[k];
                assert(jobs[j + 1] == begun_only(jobs)[i]);
            }
        }
    }
}

/// Taking a job away keeps the invariant.
pub proof fn lemma_without_wf(w: WorkView, i: int)
    requires
        w.wf(),
        0 <= i < w.jobs.len(),
    ensures
        w.without(i).wf(),
{
    let s = w.without(i);
    let es = w.extent_size as int;
    let at = |x: int|
        if x < i {
            x
        } else {
            x + 1
        };
    assert forall|x: int| 0 <= x < s.jobs.len() implies #[trigger] s.jobs[x] == w.jobs[at(x)] by {}
    assert forall|d: u64| w.dep_done(d) implies s.dep_done(d) by {
        assert forall|x: int| 0 <= x < s.jobs.len() && (#[trigger] s.jobs[x]).id == d
            implies finished(
            s.jobs[x].state,
        ) by {
            assert(w.jobs[at(x)].id == d);
        }
    }
    assert forall|x: int| 0 <= x < s.jobs.len() && cleared((#[trigger] s.jobs[x]).state)
        implies s.deps_cleared(x) by {
        assert(cleared(w.jobs[at(x)].state));
        assert(w.deps_cleared(at(x)));
        assert forall|k: int| 0 <= k < s.jobs[x].deps.len() implies s.dep_done(
            #[trigger] s.jobs[x].deps[k],
        ) || s.jobs[x].passed.contains(s.jobs[x].deps[k]) by {
            assert(w.dep_done(w.jobs[at(x)].deps[k]) || w.jobs[at(x)].passed.contains(
                w.jobs[at(x)].deps[k],
            ));
        }
    }
    assert forall|a: int, b: int|
        #![trigger s.jobs[a], s.jobs[b]]
        0 <= a < b < s.jobs.len() implies s.jobs[a].id < s.jobs[b].id by {
        assert(w.jobs[at(a)].id < w.jobs[at(b)].id);
    }
    assert forall|a: int| 0 <= a < s.jobs.len() implies (#[trigger] s.jobs[a]).id < s.next_id by {
        assert(w.jobs[at(a)].id < w.next_id);
    }
    assert forall|a: int, k: int|
        #![trigger s.jobs[a].deps[k]]
        0 <= a < s.jobs.len() && 0 <= k < s.jobs[a].deps.len() implies s.jobs[a].deps[k]
            < s.jobs[a].id by {
        assert(w.jobs[at(a)].deps[k] < w.jobs[at(a)].id);
    }
    assert forall|a: int, b: int|
        #![trigger s.jobs[a], s.jobs[b]]
        0 <= a < b < s.jobs.len() && is_dependency(s.jobs[a], s.jobs[b].kind, es)
            implies s.jobs[b].deps.contains(
            s.jobs[a].id,
        ) by {
        assert(is_dependency(w.jobs[at(a)], w.jobs[at(b)].kind, es));
        assert(w.jobs[at(b)].deps.contains(w.jobs[at(a)].id));
    }
    assert forall|a: int, b: int|
        #![trigger s.jobs[a], s.jobs[b]]
        0 <= a < s.jobs.len() && 0 <= b < s.jobs.len() && s.jobs[b].deps.contains(
            s.jobs[a].id,
        ) implies needs(s.jobs[b].kind, s.jobs[a].kind, es) by {
        assert(w.jobs[at(b)].deps.contains(w.jobs[at(a)].id));
    }
    assert forall|a: int| 0 <= a < s.jobs.len() && (#[trigger] s.jobs[a]).acked implies finished(
        s.jobs[a].state,
    ) by {
        assert(w.jobs[at(a)].acked);
    }
}

/// Acknowledging a finished job keeps the invariant.
pub proof fn lemma_ack_wf(w: WorkView, i: int)
    requires
        w.wf(),
        0 <= i < w.jobs.len(),
        finished(w.jobs[i].state),
    ensures
        w.with_ack(i).wf(),
{
    let s = w.with_ack(i);
    let es = w.extent_size as int;
    assert forall|x: int| 0 <= x < s.jobs.len() implies (#[trigger] s.jobs[x]).id == w.jobs[x].id
        && s.jobs[x].deps == w.jobs[x].deps && s.jobs[x].kind == w.jobs[x].kind
        && s.jobs[x].passed == w.jobs[x].passed && s.jobs[x].state == w.jobs[x].state by {}
    assert forall|d: u64| w.dep_done(d) implies s.dep_done(d) by {
        assert forall|x: int| 0 <= x < s.jobs.len() && (#[trigger] s.jobs[x]).id == d
            implies finished(
            s.jobs[x].state,
        ) by {
            assert(w.jobs[x].id == d);
        }
    }
    assert forall|x: int| 0 <= x < s.jobs.len() && cleared((#[trigger] s.jobs[x]).state)
        implies s.deps_cleared(x) by {
        assert(cleared(w.jobs[x].state));
        assert(w.deps_cleared(x));
        assert forall|k: int| 0 <= k < s.jobs[x].deps.len() implies s.dep_done(
            #[trigger] s.jobs[x].deps[k],
        ) || s.jobs[x].passed.contains(s.jobs[x].deps[k]) by {
            assert(w.dep_done(w.jobs[x].deps[k]) || w.jobs[x].passed.contains(
                w.jobs[x].deps[k],
            ));
        }
    }
    assert forall|a: int, b: int|
        #![trigger s.jobs[a], s.jobs[b]]
        0 <= a < b < s.jobs.len() implies s.jobs[a].id < s.jobs[b].id by {
        assert(w.jobs[a].id < w.jobs[b].id);
    }
    assert forall|a: int, k: int|
        #![trigger s.jobs[a].deps[k]]
        0 <= a < s.jobs.len() && 0 <= k < s.jobs[a].deps.len() implies s.jobs[a].deps[k]
            < s.jobs[a].id by {
        assert(w.jobs[a].deps[k] < w.jobs[a].id);
    }
    assert forall|a: int, b: int|
        #![trigger s.jobs[a], s.jobs[b]]
        0 <= a < b < s.jobs.len() && is_dependency(s.jobs[a], s.jobs[b].kind, es)
            implies s.jobs[b].deps.contains(
            s.jobs[a].id,
        ) by {
        assert(is_dependency(w.jobs[a], w.jobs[b].kind, es));
        assert(w.jobs[b].deps.contains(w.jobs[a].id));
    }
    assert forall|a: int, b: int|
        #![trigger s.jobs[a], s.jobs[b]]
        0 <= a < s.jobs.len() && 0 <= b < s.jobs.len() && s.jobs[b].deps.contains(
            s.jobs[a].id,
        ) implies needs(s.jobs[b].kind, s.jobs[a].kind, es) by {
        assert(w.jobs[b].deps.contains(w.jobs[a].id));
    }
}

/// In a dispatcher that keeps its invariant a job number names one job.
pub proof fn lemma_one_job_per_id(w: WorkView, i: int, j: int)
    requires
        w.wf(),
        0 <= i < w.jobs.len(),
        0 <= j < w.jobs.len(),
        w.jobs[i].id == w.jobs[j].id,
    ensures
        i == j,
{
    if i < j {
        assert(w.jobs[i].id < w.jobs[j].id);
    }
    if j < i {
        assert(w.jobs[j].id < w.jobs[i].id);
    }
}

/// The dispatcher of one connection.
pub struct Work {
    jobs: Vec<Job>,
    next_id: u64,
    extent_size: u64,
}

impl View for Work {
    type V = WorkView;

    closed spec fn view(&self) -> WorkView {
        WorkView {
            jobs: Seq::new(self.jobs@.len(), |i: int| self.jobs@[i]@),
            next_id: self.next_id,
            extent_size: self.extent_size,
        }
    }
}

impl Work {
    /// A dispatcher without jobs, for a region whose extents have
    /// `extent_size` blocks.
    pub fn new(extent_size: u64) -> (w: Work)
        ensures
            w@.wf(),
            w@.jobs.len() == 0,
            w@.next_id == 0,
            w@.extent_size == extent_size,
    {
        Work { jobs: Vec::new(), next_id: 0, extent_size }
    }

    /// How many jobs the dispatcher holds.
    pub fn len(&self) -> (n: usize)
        ensures
            n == self@.jobs.len(),
    {
        self.jobs.len()
    }

    /// Where the job numbered `id` stands in the order of arrival.
    fn find(&self, id: u64) -> (r: Option<usize>)
        ensures
            match r {
                Some(i) => self@.is_at(id, i as int),
                None => !self@.has(id),
            },
    {
        let mut i: usize = 0;
        while i < self.jobs.len()
            invariant
                i <= self.jobs@.len(),
                forall|x: int| 0 <= x < i ==> (#[trigger] self@.jobs[x]).id != id,
            decreases self.jobs@.len() - i,
        {
            if self.jobs[i].id == id {
                return Some(i);
            }
            i += 1;
        }
        assert forall|x: int| !#[trigger] self@.is_at(id, x) by {
            if 0 <= x < self@.jobs.len() {
                assert(self@.jobs[x].id != id);
            }
        }
        None
    }

    /// The state of the job numbered `id`, if the dispatcher holds it.
    pub fn state(&self, id: u64) -> (r: Option<JobState>)
        ensures
            match r {
                Some(state) => exists|i: int|
                    #[trigger] self@.is_at(id, i)
                        && self@.jobs[i].state == state,
                None => !self@.has(id),
            },
    {
        match self.find(id) {
            Some(i) => Some(self.jobs[i].state),
            None => None,
        }
    }

    /// The kind of the job numbered `id`, if the dispatcher holds it.
    pub fn kind(&self, id: u64) -> (r: Option<&JobKind>)
        ensures
            match r {
                Some(kind) => exists|i: int|
                    #[trigger] self@.is_at(id, i)
                        && self@.jobs[i].kind == *kind,
                None => !self@.has(id),
            },
    {
        match self.find(id) {
            Some(i) => Some(&self.jobs[i].kind),
            None => None,
        }
    }

    /// The numbers of the jobs that the job numbered `id` waits for, if the
    /// dispatcher holds it.
    pub fn dependencies(&self, id: u64) -> (r: Option<Vec<u64>>)
        ensures
            match r {
                Some(deps) => exists|i: int|
                    #[trigger] self@.is_at(id, i)
                        && self@.jobs[i].deps == deps@,
                None => !self@.has(id),
            },
    {
        match self.find(id) {
            Some(i) => {
                let mut deps: Vec<u64> = Vec::new();
                let mut k: usize = 0;
                while k < self.jobs[i].deps.len()
                    invariant
                        i < self.jobs@.len(),
                        k <= self.jobs@[i as int].deps@.len(),
                        deps@ == self.jobs@[i as int].deps@.subrange(0, k as int),
                    decreases self.jobs@[i as int].deps@.len() - k,
                {
                    deps.push(self.jobs[i].deps[k]);
                    k += 1;
                }
                assert(deps@ == self@.jobs[i as int].deps);
                Some(deps)
            },
            None => None,
        }
    }

    /// The numbers of the jobs that the job numbered `id` was let past
    /// while they had not finished, if the dispatcher holds it.
    pub fn passed(&self, id: u64) -> (r: Option<Vec<u64>>)
        ensures
            match r {
                Some(passed) => exists|i: int|
                    #[trigger] self@.is_at(id, i) && self@.jobs[i].passed == passed@.to_set(),
                None => !self@.has(id),
            },
    {
        match self.find(id) {
            Some(i) => {
                let mut passed: Vec<u64> = Vec::new();
                let mut k: usize = 0;
                while k < self.jobs[i].passed.len()
                    invariant
                        i < self.jobs@.len(),
                        k <= self.jobs@[i as int].passed@.len(),
                        passed@ == self.jobs@[i as int].passed@.subrange(0, k as int),
                    decreases self.jobs@[i as int].passed@.len() - k,
                {
                    passed.push(self.jobs[i].passed[k]);
                    k += 1;
                }
                assert(passed@ == self.jobs@[i as int].passed@);
                assert(self@.is_at(id, i as int));
                Some(passed)
            },
            None => None,
        }
    }

    /// Whether the job numbered `d` has finished or was removed.
    fn dep_is_done(&self, d: u64) -> (r: bool)
        ensures
            r == self@.dep_done(d),
    {
        let mut i: usize = 0;
        while i < self.jobs.len()
            invariant
                i <= self.jobs@.len(),
                forall|x: int|
                    0 <= x < i && (#[trigger] self@.jobs[x]).id == d ==> finished(
                        self@.jobs[x].state,
                    ),
            decreases self.jobs@.len() - i,
        {
            if self.jobs[i].id == d && !self.jobs[i].state.is_finished() {
                assert(self@.jobs[i as int].id == d);
                return false;
            }
            i += 1;
        }
        true
    }

    /// Whether the repair under way keeps job `x` back.
    fn is_kept_back(&self, x: usize, repair: Option<RepairState>) -> (r: bool)
        requires
            x < self@.jobs.len(),
        ensures
            r == self@.kept_back(x as int, repair),
    {
        if self.jobs[x].kind.is_held(repair, self.extent_size) {
            return true;
        }
        let mut y: usize = 0;
        while y < x
            invariant
                x < self@.jobs.len(),
                y <= x,
                !held(self@.jobs[x as int].kind, repair, self@.extent_size as int),
                forall|z: int|
                    0 <= z < y ==> !(!finished((#[trigger] self@.jobs[z]).state) && held(
                        self@.jobs[z].kind,
                        repair,
                        self@.extent_size as int,
                    )),
            decreases x - y,
        {
            if !self.jobs[y].state.is_finished() && self.jobs[y].kind.is_held(
                repair,
                self.extent_size,
            ) {
                assert(!finished(self@.jobs[y as int].state) && held(
                    self@.jobs[y as int].kind,
                    repair,
                    self@.extent_size as int,
                ));
                return true;
            }
            y += 1;
        }
        false
    }

    /// Whether job `j` may pass the job numbered `d` while `repair` is
    /// under way.
    fn may_pass_dep(&self, j: usize, d: u64, repair: Option<RepairState>) -> (r: bool)
        requires
            self@.wf(),
            j < self@.jobs.len(),
        ensures
            r == exists|x: int| #[trigger] self@.is_at(d, x) && self@.may_pass(j as int, x, repair),
    {
        let state = match repair {
            Some(state) => state,
            None => {
                return false;
            },
        };
        if !self.jobs[j].kind.continues_repair() {
            return false;
        }
        match self.jobs[j].kind.target() {
            Some(extent) => {
                if extent != state.extent {
                    return false;
                }
            },
            None => {
                return false;
            },
        }
        let x = match self.find(d) {
            Some(x) => x,
            None => {
                return false;
            },
        };
        proof {
            assert(self@.is_at(d, x as int));
            assert forall|y: int| #[trigger] self@.is_at(d, y) implies y == x by {
                lemma_one_job_per_id(self@, y, x as int);
            }
        }
        if !self.jobs[x].kind.is_flush() {
            return false;
        }
        self.is_kept_back(x, repair)
    }

    /// Whether nothing stands in the way of job `j` while `repair` is
    /// under way, and if so, which of the jobs it waits for have not
    /// finished.
    fn clearance(&self, j: usize, repair: Option<RepairState>) -> (r: Option<Vec<u64>>)
        requires
            self@.wf(),
            j < self@.jobs.len(),
        ensures
            match r {
                Some(passed) => self@.can_clear(j as int, repair) && passed@.to_set()
                    == self@.undone(j as int),
                None => !self@.can_clear(j as int, repair),
            },
    {
        let mut passed: Vec<u64> = Vec::new();
        let mut k: usize = 0;
        while k < self.jobs[j].deps.len()
            invariant
                self@.wf(),
                j < self@.jobs.len(),
                k <= self@.jobs[j as int].deps.len(),
                forall|x: int|
                    0 <= x < k ==> self@.dep_clear(
                        j as int,
                        #[trigger] self@.jobs[j as int].deps[x],
                        repair,
                    ),
                forall|e: u64|
                    passed@.contains(e) <==> exists|x: int|
                        0 <= x < k && #[trigger] self@.jobs[j as int].deps[x] == e
                            && !self@.dep_done(e),
            decreases self@.jobs[j as int].deps.len() - k,
        {
            let d = self.jobs[j].deps[k];
            let ghost before = passed@;
            if !self.dep_is_done(d) {
                if !self.may_pass_dep(j, d, repair) {
                    assert(!self@.dep_clear(j as int, self@.jobs[j as int].deps[k as int], repair));
                    return None;
                }
                passed.push(d);
            }
            proof {
                let deps = self@.jobs[j as int].deps;
                assert forall|e: u64|
                    passed@.contains(e) <==> exists|x: int|
                        0 <= x < k + 1 && #[trigger] deps[x] == e && !self@.dep_done(e) by {
                    if passed@.contains(e) {
                        let i = choose|i: int| 0 <= i < passed@.len() && passed@[i] == e;
                        if i < before.len() {
                            assert(before[i] == e);
                            assert(before.contains(e));
                        } else {
                            assert(deps[k as int] == e);
                        }
                    }
                    if exists|x: int|
                        0 <= x < k + 1 && #[trigger] deps[x] == e && !self@.dep_done(e) {
                        let x = choose|x: int|
                            0 <= x < k + 1 && #[trigger] deps[x] == e && !self@.dep_done(e);
                        if x < k {
                            assert(before.contains(e));
                            let i = choose|i: int| 0 <= i < before.len() && before[i] == e;
                            assert(passed@[i] == e);
                        } else {
                            assert(passed@[before.len() as int] == e);
                        }
                    }
                }
            }
            k += 1;
        }
        proof {
            let deps = self@.jobs[j as int].deps;
            assert forall|e: u64| passed@.to_set().contains(e) == self@.undone(j as int).contains(
                e,
            ) by {
                if deps.contains(e) && !self@.dep_done(e) {
                    let x = choose|x: int| 0 <= x < deps.len() && deps[x] == e;
                    assert(deps[x] == e);
                }
            }
            assert(passed@.to_set() =~= self@.undone(j as int));
        }
        Some(passed)
    }

    /// Whether some unfinished job waits for the job numbered `id`.
    fn is_awaited(&self, id: u64) -> (r: bool)
        ensures
            r == self@.awaited(id),
    {
        let mut j: usize = 0;
        while j < self.jobs.len()
            invariant
                j <= self.jobs@.len(),
                forall|x: int|
                    0 <= x < j ==> !(!finished((#[trigger] self@.jobs[x]).state)
                        && self@.jobs[x].deps.contains(id)),
            decreases self.jobs@.len() - j,
        {
            if !self.jobs[j].state.is_finished() {
                let mut k: usize = 0;
                while k < self.jobs[j].deps.len()
                    invariant
                        j < self.jobs@.len(),
                        !finished(self@.jobs[j as int].state),
                        k <= self@.jobs[j as int].deps.len(),
                        forall|x: int| 0 <= x < k ==> self@.jobs[j as int].deps[x] != id,
                    decreases self@.jobs[j as int].deps.len() - k,
                {
                    if self.jobs[j].deps[k] == id {
                        assert(self@.jobs[j as int].deps[k as int] == id);
                        assert(self@.jobs[j as int].deps.contains(id));
                        return true;
                    }
                    k += 1;
                }
            }
            j += 1;
        }
        false
    }

    /// Takes in a job. It gets the next number, starts out `New`, and waits
    /// for every unfinished job that it has to wait for. Nothing is taken
    /// in, and nothing changes, once the job numbers are used up.
    pub fn submit(&mut self, kind: JobKind) -> (r: Option<u64>)
        requires
            old(self)@.wf(),
        ensures
            final(self)@.wf(),
            old(self)@.next_id < u64::MAX ==> r == Some(old(self)@.next_id) && final(self)@
                == old(self)@.submitted(kind),
            old(self)@.next_id == u64::MAX ==> r is None && final(self)@ == old(self)@,
    {
        if self.next_id == u64::MAX {
            return None;
        }
        let id = self.next_id;
        let es = self.extent_size;
        let mut deps: Vec<u64> = Vec::new();
        let mut i: usize = 0;
        while i < self.jobs.len()
            invariant
                i <= self.jobs@.len(),
                es == self.extent_size,
                deps@ == dependencies_among(self@.jobs.subrange(0, i as int), kind, es as int),
            decreases self.jobs@.len() - i,
        {
            proof {
                assert(self@.jobs.subrange(0, i
                    + 1).drop_last() =~= self@.jobs.subrange(0, i as int));
                assert(self@.jobs.subrange(0, i + 1).last() == self@.jobs[i as int]);
            }
            if !self.jobs[i].state.is_finished() && kind.depends_on(&self.jobs[i].kind, es) {
                deps.push(self.jobs[i].id);
            }
            i += 1;
        }
        proof {
            assert(self@.jobs.subrange(0, i as int) =~= self@.jobs);
            lemma_submit_wf(self@, kind);
        }
        self.jobs.push(
            Job { id, kind, deps, passed: Vec::new(), state: JobState::New, acked: false },
        );
        self.next_id = id + 1;
        proof {
            assert(Seq::<u64>::empty().to_set() =~= Set::<u64>::empty());
            assert(self@.jobs =~= old(self)@.submitted(kind).jobs);
        }
        Some(id)
    }

    /// Searches for work while `repair` is under way: every `New` job in
    /// whose way nothing stands becomes `Ready`. Nothing stands in the way
    /// of a job when every job it waits for has finished. A later step of
    /// the repair under way is also let through when the jobs that have
    /// not finished are flushes that this repair keeps back; they are put
    /// on record as passed.
    pub fn promote(&mut self, repair: Option<RepairState>)
        requires
            old(self)@.wf(),
        ensures
            final(self)@.wf(),
            final(self)@ == old(self)@.promoted(repair),
    {
        let n = self.jobs.len();
        let mut j: usize = 0;
        while j < n
            invariant
                j <= n,
                n == self@.jobs.len(),
                n == old(self)@.jobs.len(),
                self@.wf(),
                self@.next_id == old(self)@.next_id,
                self@.extent_size == old(self)@.extent_size,
                forall|i: int| 0 <= i < j ==> #[trigger] self@.jobs[i]
                    == old(self)@.promoted(repair).jobs[i],
                forall|i: int| j <= i < n ==> #[trigger] self@.jobs[i] == old(self)@.jobs[i],
            decreases n - j,
        {
            let ghost before = self@;
            proof {
                lemma_same_progress(before, old(self)@, repair);
            }
            let is_new = match self.jobs[j].state {
                JobState::New => true,
                _ => false,
            };
            if is_new {
                match self.clearance(j, repair) {
                    Some(passed) => {
                        self.jobs[j].state = JobState::Ready;
                        self.jobs[j].passed = passed;
                        proof {
                            assert(self@.jobs =~= before.cleared_with(
                                j as int,
                                before.undone(j as int),
                            ).jobs);
                            lemma_cleared_wf(before, j as int, repair);
                        }
                    },
                    None => {},
                }
            }
            j += 1;
        }
        proof {
            assert(self@.jobs =~= old(self)@.promoted(repair).jobs);
        }
    }

    /// The oldest job that may be begun while `repair` is under way: one
    /// that is `Ready` and not held back by the repair.
    pub fn next_ready(&self, repair: Option<RepairState>) -> (r: Option<u64>)
        ensures
            match r {
                Some(id) => self@.next_is(id, repair),
                None => self@.none_startable(repair),
            },
    {
        let mut i: usize = 0;
        while i < self.jobs.len()
            invariant
                i <= self.jobs@.len(),
                forall|x: int| 0 <= x < i ==> !self@.startable(x, repair),
            decreases self.jobs@.len() - i,
        {
            let ready = match self.jobs[i].state {
                JobState::Ready => true,
                _ => false,
            };
            if ready && !self.jobs[i].kind.is_held(repair, self.extent_size) {
                let id = self.jobs[i].id;
                assert(self@.jobs[i as int].id == id);
                assert(self@.is_at(id, i as int) && self@.first_startable(i as int, repair));
                return Some(id);
            }
            i += 1;
        }
        None
    }

    /// Begins the job numbered `id` if it is `Ready` and not held back by
    /// `repair`: it is then `InProgress`. Otherwise nothing changes.
    pub fn begin(&mut self, id: u64, repair: Option<RepairState>) -> (r: bool)
        requires
            old(self)@.wf(),
        ensures
            final(self)@.wf(),
            r == exists|i: int|
                #[trigger] old(self)@.is_at(id, i) && old(self)@.startable(i, repair),
            forall|i: int|
                #[trigger] old(self)@.is_at(id, i) && r
                    ==> final(self)@ == old(self)@.with_state(i, JobState::InProgress),
            !r ==> final(self)@ == old(self)@,
    {
        let i = match self.find(id) {
            Some(i) => i,
            None => {
                return false;
            },
        };
        proof {
            assert(self@.is_at(id, i as int));
            assert forall|x: int| #[trigger] self@.is_at(id, x) implies x == i by {
                lemma_one_job_per_id(self@, x, i as int);
            }
        }
        let ready = match self.jobs[i].state {
            JobState::Ready => true,
            _ => false,
        };
        if !ready || self.jobs[i].kind.is_held(repair, self.extent_size) {
            return false;
        }
        self.jobs[i].state = JobState::InProgress;
        proof {
            assert(self@.jobs =~= old(self)@.with_state(i as int, JobState::InProgress).jobs);
            lemma_state_wf(old(self)@, i as int, JobState::InProgress);
            assert(old(self)@.startable(i as int, repair));
        }
        true
    }

    /// Records how the job numbered `id` ended, if it is `InProgress`: it
    /// is then `Complete`, or in the state `Error` with the cause given.
    /// Otherwise nothing changes.
    pub fn finish(&mut self, id: u64, outcome: Result<(), Error>) -> (r: bool)
        requires
            old(self)@.wf(),
        ensures
            final(self)@.wf(),
            r == exists|i: int|
                #[trigger] old(self)@.is_at(id, i) && old(self)@.jobs[i].state is InProgress,
            forall|i: int|
                #[trigger] old(self)@.is_at(id, i) && r
                    ==> final(self)@ == old(self)@.with_state(i, ended(outcome)),
            !r ==> final(self)@ == old(self)@,
    {
        let i = match self.find(id) {
            Some(i) => i,
            None => {
                return false;
            },
        };
        proof {
            assert(self@.is_at(id, i as int));
            assert forall|x: int| #[trigger] self@.is_at(id, x) implies x == i by {
                lemma_one_job_per_id(self@, x, i as int);
            }
        }
        let running = match self.jobs[i].state {
            JobState::InProgress => true,
            _ => false,
        };
        if !running {
            return false;
        }
        let state = match outcome {
            Ok(_) => JobState::Complete,
            Err(cause) => JobState::Error { cause },
        };
        self.jobs[i].state = state;
        proof {
            assert(self@.jobs =~= old(self)@.with_state(i as int, state).jobs);
            lemma_state_wf(old(self)@, i as int, state);
            assert(old(self)@.jobs[i as int].state is InProgress);
        }
        true
    }

    /// Notes that the result of the job numbered `id` was acknowledged, if
    /// the job has finished. Otherwise nothing changes.
    pub fn acknowledge(&mut self, id: u64) -> (r: bool)
        requires
            old(self)@.wf(),
        ensures
            final(self)@.wf(),
            r == exists|i: int|
                #[trigger] old(self)@.is_at(id, i)
                    && finished(old(self)@.jobs[i].state),
            forall|i: int|
                #[trigger] old(self)@.is_at(id, i) && r
                    ==> final(self)@ == old(self)@.with_ack(i),
            !r ==> final(self)@ == old(self)@,
    {
        let i = match self.find(id) {
            Some(i) => i,
            None => {
                return false;
            },
        };
        proof {
            assert(self@.is_at(id, i as int));
            assert forall|x: int| #[trigger] self@.is_at(id, x) implies x == i by {
                lemma_one_job_per_id(self@, x, i as int);
            }
        }
        if !self.jobs[i].state.is_finished() {
            return false;
        }
        self.jobs[i].acked = true;
        proof {
            assert(self@.jobs =~= old(self)@.with_ack(i as int).jobs);
            lemma_ack_wf(old(self)@, i as int);
            assert(finished(old(self)@.jobs[i as int].state));
        }
        true
    }

    /// Removes the job numbered `id` if it has finished, its result was
    /// acknowledged, and no unfinished job waits for it. Otherwise nothing
    /// changes.
    pub fn retire(&mut self, id: u64) -> (r: bool)
        requires
            old(self)@.wf(),
        ensures
            final(self)@.wf(),
            r == exists|i: int|
                #[trigger] old(self)@.is_at(id, i) && old(self)@.retirable(i),
            forall|i: int|
                #[trigger] old(self)@.is_at(id, i) && r
                    ==> final(self)@ == old(self)@.without(i),
            !r ==> final(self)@ == old(self)@,
    {
        let i = match self.find(id) {
            Some(i) => i,
            None => {
                return false;
            },
        };
        proof {
            assert(self@.is_at(id, i as int));
            assert forall|x: int| #[trigger] self@.is_at(id, x) implies x == i by {
                lemma_one_job_per_id(self@, x, i as int);
            }
        }
        if !self.jobs[i].state.is_finished() || !self.jobs[i].acked || self.is_awaited(id) {
            return false;
        }
        self.jobs.remove(i);
        proof {
            assert(self@.jobs =~= old(self)@.without(i as int).jobs);
            lemma_without_wf(old(self)@, i as int);
            assert(old(self)@.retirable(i as int));
        }
        true
    }

    /// Gives up every job whose work was not yet begun, as when the
    /// connection is torn down: the jobs that are `New` or `Ready` are
    /// removed, those in progress or finished stay. The result is the
    /// number of jobs given up.
    pub fn teardown(&mut self) -> (given_up: usize)
        requires
            old(self)@.wf(),
        ensures
            final(self)@.wf(),
            final(self)@.jobs == begun_only(old(self)@.jobs),
            final(self)@.next_id == old(self)@.next_id,
            final(self)@.extent_size == old(self)@.extent_size,
            given_up == old(self)@.jobs.len() - final(self)@.jobs.len(),
    {
        let n = self.jobs.len();
        let mut i: usize = n;
        let mut given_up: usize = 0;
        proof {
            assert(old(self)@.jobs.subrange(n as int, n as int) =~= Seq::<JobView>::empty());
            assert(self@.jobs =~= old(self)@.jobs.subrange(0, n as int) + begun_only(
                old(self)@.jobs.subrange(n as int, n as int),
            ));
        }
        while i > 0
            invariant
                i <= n,
                n == old(self)@.jobs.len(),
                self@.wf(),
                self@.next_id == old(self)@.next_id,
                self@.extent_size == old(self)@.extent_size,
                self@.jobs == old(self)@.jobs.subrange(0, i as int) + begun_only(
                    old(self)@.jobs.subrange(i as int, n as int),
                ),
                given_up == n - self@.jobs.len(),
            decreases i,
        {
            i -= 1;
            let ghost before = self@;
            let ghost tail = old(self)@.jobs.subrange(i + 1, n as int);
            let ghost next = old(self)@.jobs.subrange(i as int, n as int);
            proof {
                assert(next.drop_first() =~= tail);
                assert(next.first() == old(self)@.jobs[i as int]);
                assert(before.jobs[i as int] == old(self)@.jobs[i as int]);
            }
            if !self.jobs[i].state.is_begun() {
                self.jobs.remove(i);
                given_up += 1;
                proof {
                    assert(self@.jobs =~= before.without(i as int).jobs);
                    lemma_without_wf(before, i as int);
                    assert(self@.jobs =~= old(self)@.jobs.subrange(0, i as int) + begun_only(next));
                }
            } else {
                proof {
                    assert(self@.jobs =~= old(self)@.jobs.subrange(0, i as int) + begun_only(next));
                }
            }
        }
        proof {
            assert(old(self)@.jobs.subrange(0, n as int) =~= old(self)@.jobs);
            assert(self@.jobs =~= begun_only(old(self)@.jobs));
        }
        given_up
    }
}

/// The state in which a job ends.
pub open spec fn ended(outcome: Result<(), Error>) -> JobState {
    match outcome {
        Ok(_) => JobState::Complete,
        Err(cause) => JobState::Error { cause },
    }
}

/// Two dispatchers that hold the same jobs, each as far along as in the
/// other as far as finishing goes, agree on which jobs have finished and
/// on the jobs in whose way nothing stands.
proof fn lemma_same_progress(a: WorkView, b: WorkView, repair: Option<RepairState>)
    requires
        a.jobs.len() == b.jobs.len(),
        a.extent_size == b.extent_size,
        forall|i: int|
            0 <= i < a.jobs.len() ==> (#[trigger] a.jobs[i]).id == b.jobs[i].id && a.jobs[i].deps
                == b.jobs[i].deps && a.jobs[i].kind == b.jobs[i].kind && finished(a.jobs[i].state)
                == finished(b.jobs[i].state),
    ensures
        forall|d: u64| a.dep_done(d) == b.dep_done(d),
        forall|j: int|
            0 <= j < a.jobs.len() ==> a.can_clear(j, repair) == b.can_clear(j, repair)
                && a.undone(j) == b.undone(j),
{
    let es = a.extent_size as int;
    assert forall|d: u64| a.dep_done(d) == b.dep_done(d) by {
        if a.dep_done(d) {
            assert forall|i: int| 0 <= i < b.jobs.len() && (#[trigger] b.jobs[i]).id == d
                implies finished(b.jobs[i].state) by {
                assert(a.jobs[i].id == d);
            }
        }
        if b.dep_done(d) {
            assert forall|i: int| 0 <= i < a.jobs.len() && (#[trigger] a.jobs[i]).id == d
                implies finished(a.jobs[i].state) by {
                assert(b.jobs[i].id == d);
            }
        }
    }
    assert forall|x: int| 0 <= x < a.jobs.len() implies a.kept_back(x, repair) == b.kept_back(
        x,
        repair,
    ) by {
        assert(a.jobs[x].kind == b.jobs[x].kind);
        if a.kept_back(x, repair) && !held(a.jobs[x].kind, repair, es) {
            let y = choose|y: int|
                0 <= y < x && !finished((#[trigger] a.jobs[y]).state) && held(
                    a.jobs[y].kind,
                    repair,
                    es,
                );
            assert(!finished(b.jobs[y].state) && held(b.jobs[y].kind, repair, es));
        }
        if b.kept_back(x, repair) && !held(b.jobs[x].kind, repair, es) {
            let y = choose|y: int|
                0 <= y < x && !finished((#[trigger] b.jobs[y]).state) && held(
                    b.jobs[y].kind,
                    repair,
                    es,
                );
            assert(!finished(a.jobs[y].state) && held(a.jobs[y].kind, repair, es));
        }
    }
    assert forall|j: int, d: u64| 0 <= j < a.jobs.len() implies a.dep_clear(j, d, repair)
        == b.dep_clear(j, d, repair) by {
        assert(a.jobs[j].kind == b.jobs[j].kind);
        if a.dep_clear(j, d, repair) && !a.dep_done(d) {
            let x = choose|x: int| #[trigger] a.is_at(d, x) && a.may_pass(j, x, repair);
            assert(a.jobs[x].kind == b.jobs[x].kind);
            assert(b.is_at(d, x) && b.may_pass(j, x, repair));
        }
        if b.dep_clear(j, d, repair) && !b.dep_done(d) {
            let x = choose|x: int| #[trigger] b.is_at(d, x) && b.may_pass(j, x, repair);
            assert(a.jobs[x].kind == b.jobs[x].kind);
            assert(a.is_at(d, x) && a.may_pass(j, x, repair));
        }
    }
    assert forall|j: int| 0 <= j < a.jobs.len() implies a.can_clear(j, repair) == b.can_clear(
        j,
        repair,
    ) && a.undone(j) == b.undone(j) by {
        assert(a.jobs[j].deps == b.jobs[j].deps);
        if a.can_clear(j, repair) {
            assert forall|k: int| 0 <= k < b.jobs[j].deps.len() implies b.dep_clear(
                j,
                #[trigger] b.jobs[j].deps[k],
                repair,
            ) by {
                assert(a.dep_clear(j, a.jobs[j].deps[k], repair));
            }
        }
        if b.can_clear(j, repair) {
            assert forall|k: int| 0 <= k < a.jobs[j].deps.len() implies a.dep_clear(
                j,
                #[trigger] a.jobs[j].deps[k],
                repair,
            ) by {
                assert(b.dep_clear(j, b.jobs[j].deps[k], repair));
            }
        }
        assert(a.undone(j) =~= b.undone(j));
    }
}

} // verus!
