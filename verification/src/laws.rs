//! What holds of the engine as a whole: how writes, flushes and reads fit
//! together, in which order jobs finish, and what a repair does to the
//! numbers of an extent.

use vstd::prelude::*;
use crate::definition::{lemma_block_span, lemma_total_blocks_fit, RegionDefinition, RegionOptions};
use crate::downstairs::{applied, failure, lemma_flushed_clean};
use crate::error::Error;
use crate::model::{
    fit, import_blocks, lemma_max_of, lemma_max_of_is_member, max_of, numbers_consistent,
    RegionView,
};
use crate::region::RegionImage;
use crate::job::{cleared, finished, held, needs, JobKind, JobState};
use crate::repair::{extent_state, ExtentState, RepairSource, RepairState, RepairStep};
use crate::work::{lemma_finish_in_order, lemma_one_job_per_id, lemma_passes_nothing, WorkView};

verus! {

/// One write request: the blocks `start .. start + count` and the bytes for
/// them.
pub struct WriteRequest {
    /// The first block.
    pub start: u64,
    /// The number of blocks.
    pub count: u64,
    /// The bytes to write.
    pub data: Seq<u8>,
}

impl RegionView {
    /// The region after one write request: the write is applied if it is
    /// accepted and leaves the region as it is otherwise.
    pub open spec fn after_write(self, w: WriteRequest) -> RegionView {
        if self.write_error(w.start as int, w.count as int, w.data, false) is None {
            self.write(w.start as int, w.count as int, w.data)
        } else {
            self
        }
    }

    /// The region after a sequence of write requests, in order.
    pub open spec fn after_writes(self, ws: Seq<WriteRequest>) -> RegionView
        decreases ws.len(),
    {
        if ws.len() == 0 {
            self
        } else {
            self.after_writes(ws.drop_last()).after_write(ws.last())
        }
    }

    /// The bytes that the last accepted write among `ws` put into block
    /// `b`, or what the block held before if none of them touched it.
    pub open spec fn last_written(self, ws: Seq<WriteRequest>, b: int) -> Seq<u8>
        decreases ws.len(),
    {
        if ws.len() == 0 {
            self.blocks[b]
        } else {
            let w = ws.last();
            let bs = self.def.block_size as int;
            if self.write_error(w.start as int, w.count as int, w.data, false) is None && w.start
                <= b < w.start + w.count {
                w.data.subrange((b - w.start) * bs, (b - w.start) * bs + bs)
            } else {
                self.last_written(ws.drop_last(), b)
            }
        }
    }
}

/// An accepted write leaves a well-formed region, with the same definition
/// and the same numbers.
pub proof fn lemma_write_wf(v: RegionView, start: int, count: int, data: Seq<u8>)
    requires
        v.wf(),
        v.in_bounds(start, count),
        data.len() == count * v.def.block_size,
    ensures
        v.write(start, count, data).wf(),
{
    let bs = v.def.block_size as int;
    let after = v.write(start, count, data);
    assert forall|b: int| 0 <= b < after.blocks.len() implies (#[trigger] after.blocks[b]).len()
        == bs by {
        if start <= b < start + count {
            lemma_block_span(b - start, count, bs);
        } else {
            assert(v.blocks[b].len() == bs);
        }
    }
}

/// Reading depends on the blocks alone.
pub proof fn lemma_read_same_blocks(a: RegionView, b: RegionView, start: int, count: int)
    requires
        a.blocks == b.blocks,
    ensures
        a.read(start, count) == b.read(start, count),
    decreases count,
{
    if count > 0 {
        lemma_read_same_blocks(a, b, start, count - 1);
    }
}

/// Reading one block gives that block.
pub proof fn lemma_read_one(v: RegionView, b: int)
    ensures
        v.read(b, 1) == v.blocks[b],
{
    assert(v.read(b, 0) =~= Seq::<u8>::empty());
    assert(v.read(b, 1) =~= v.blocks[b]);
}

/// Reading the first `k` of the blocks that were just written gives back
/// the first `k` blocks of what was written.
pub proof fn lemma_read_written_prefix(
    v: RegionView,
    start: int,
    count: int,
    data: Seq<u8>,
    k: int,
)
    requires
        v.wf(),
        v.in_bounds(start, count),
        data.len() == count * v.def.block_size,
        0 <= k <= count,
    ensures
        0 <= k * v.def.block_size <= data.len(),
        v.write(start, count, data).read(start, k) == data.subrange(0, k * v.def.block_size),
    decreases k,
{
    let bs = v.def.block_size as int;
    let after = v.write(start, count, data);
    if k == 0 {
        assert(after.read(start, 0) =~= data.subrange(0, 0));
    } else {
        lemma_read_written_prefix(v, start, count, data, k - 1);
        lemma_block_span(k - 1, count, bs);
        assert(after.blocks[start + k - 1] == data.subrange((k - 1) * bs, (k - 1) * bs + bs));
        assert(data.subrange(0, (k - 1) * bs) + data.subrange((k - 1) * bs, (k - 1) * bs + bs)
            =~= data.subrange(0, k * bs));
    }
}

/// Reading the blocks that were just written gives back the bytes that
/// were written.
pub proof fn lemma_read_after_write(v: RegionView, start: int, count: int, data: Seq<u8>)
    requires
        v.wf(),
        v.in_bounds(start, count),
        data.len() == count * v.def.block_size,
    ensures
        v.write(start, count, data).read(start, count) == data,
{
    lemma_read_written_prefix(v, start, count, data, count);
    assert(data.subrange(0, count * v.def.block_size) =~= data);
}

/// A sequence of writes leaves a well-formed region in which every block
/// holds what was last written to it.
pub proof fn lemma_after_writes(v: RegionView, ws: Seq<WriteRequest>)
    requires
        v.wf(),
    ensures
        v.after_writes(ws).wf(),
        v.after_writes(ws).def == v.def,
        v.after_writes(ws).read_only == v.read_only,
        v.after_writes(ws).generation == v.generation,
        v.after_writes(ws).flush_number == v.flush_number,
        v.after_writes(ws).repair == v.repair,
        forall|b: int|
            0 <= b < v.def.total_blocks() ==> #[trigger] v.after_writes(ws).blocks[b]
                == v.last_written(ws, b),
    decreases ws.len(),
{
    if ws.len() > 0 {
        let w = ws.last();
        let mid = v.after_writes(ws.drop_last());
        lemma_after_writes(v, ws.drop_last());
        if mid.write_error(w.start as int, w.count as int, w.data, false) is None {
            lemma_write_wf(mid, w.start as int, w.count as int, w.data);
        }
        assert forall|b: int| 0 <= b < v.def.total_blocks() implies #[trigger] v.after_writes(
            ws,
        ).blocks[b] == v.last_written(ws, b) by {
            assert(mid.blocks[b] == v.last_written(ws.drop_last(), b));
        }
    }
}

/// After any sequence of writes and a flush of the whole region, no block
/// is dirty, and reading a block gives exactly the bytes that were last
/// written to it.
pub proof fn law_write_flush_read(
    v: RegionView,
    ws: Seq<WriteRequest>,
    flush_number: u64,
    generation_number: u64,
    b: int,
)
    requires
        v.wf(),
        0 <= b < v.def.total_blocks(),
    ensures
        ({
            let flushed = v.after_writes(ws).flush(
                flush_number,
                generation_number,
                v.def.extent_count as int,
            );
            &&& !flushed.dirty[b]
            &&& flushed.read(b, 1) == v.last_written(ws, b)
        }),
{
    let written = v.after_writes(ws);
    let flushed = written.flush(flush_number, generation_number, v.def.extent_count as int);
    lemma_after_writes(v, ws);
    lemma_read_one(flushed, b);
    assert(v.def.extent_count * v.def.extent_size == v.def.extent_size * v.def.extent_count)
        by (nonlinear_arith);
}

/// A region created with an import holds the imported bytes: reading back
/// the blocks that the import takes up gives what was imported, filled up
/// with zeros to the end of the last block. An import of whole blocks is
/// read back byte for byte.
pub proof fn law_import_round_trip(def: RegionDefinition, data: Seq<u8>)
    requires
        RegionView::create_error(def, false, Some(data)) is None,
    ensures
        RegionView::created(def, Some(data)).read(0, import_blocks(def, data.len())) == fit(
            data,
            import_blocks(def, data.len()) * def.block_size,
        ),
        data.len() % (def.block_size as nat) == 0 ==> RegionView::created(def, Some(data)).read(
            0,
            (data.len() / (def.block_size as nat)) as int,
        ) == data,
{
    let bs = def.block_size as int;
    let count = import_blocks(def, data.len());
    let padded = fit(data, count * bs);
    let fresh = RegionView::fresh(def);
    lemma_total_blocks_fit(def);
    vstd::arithmetic::div_mod::lemma_fundamental_div_mod(data.len() as int, bs);
    vstd::arithmetic::div_mod::lemma_div_pos_is_pos(data.len() as int, bs);
    vstd::arithmetic::div_mod::lemma_mod_pos_bound(data.len() as int, bs);
    let q = data.len() as int / bs;
    assert(bs * q == q * bs) by (nonlinear_arith);
    assert((q + 1) * bs == q * bs + bs) by (nonlinear_arith);
    assert(0 <= count * bs);
    assert(fresh.wf());
    lemma_read_after_write(fresh, 0, count, padded);
    lemma_read_same_blocks(
        fresh.write(0, count, padded),
        RegionView::created(def, Some(data)),
        0,
        count,
    );
    if data.len() % (def.block_size as nat) == 0 {
        assert(padded =~= data);
    }
}

/// A read-only region refuses every write that is not a repair write with
/// `ReadOnlyRegion`, and the write job leaves the region exactly as it
/// was.
pub proof fn law_read_only_refuses_writes(v: RegionView, start: u64, count: u64, data: Vec<u8>)
    requires
        v.read_only,
    ensures
        v.write_error(start as int, count as int, data@, false) == Some(Error::ReadOnlyRegion),
        failure(JobKind::Write { start, count, data }, v) == Some(Error::ReadOnlyRegion),
        applied(JobKind::Write { start, count, data }, v) == v,
{
}

/// Two reads or writes that touch a common block finish in the order in
/// which they arrived: the later one does not leave the state `New`, and
/// so is not begun, before the earlier one has finished.
pub proof fn law_common_block_keeps_order(w: WorkView, i: int, j: int, b: int)
    requires
        w.wf(),
        0 <= i < j < w.jobs.len(),
        w.jobs[i].kind is Read || w.jobs[i].kind is Write,
        w.jobs[j].kind is Read || w.jobs[j].kind is Write,
        w.jobs[i].kind.touches(w.extent_size as int, b),
        w.jobs[j].kind.touches(w.extent_size as int, b),
        cleared(w.jobs[j].state),
    ensures
        finished(w.jobs[i].state),
{
    lemma_passes_nothing(w, j);
    lemma_finish_in_order(w, i, j);
}

/// A flush is a barrier. It does not leave the state `New`, and so is not
/// begun, before every job that arrived before it has finished. And no job
/// of any kind that arrived after it leaves the state `New` before the
/// flush has finished, unless that job has the flush on record as passed.
pub proof fn law_flush_is_barrier(w: WorkView, i: int, j: int)
    requires
        w.wf(),
        0 <= i < j < w.jobs.len(),
        w.jobs[i].kind is Flush || w.jobs[j].kind is Flush,
        cleared(w.jobs[j].state),
        !w.jobs[j].passed.contains(w.jobs[i].id),
    ensures
        finished(w.jobs[i].state),
{
    lemma_finish_in_order(w, i, j);
}

/// Only a later step of a repair ever has a job on record as passed, and
/// only a flush that arrived before it. Every other job keeps to the
/// barrier without exception, a flush among them.
pub proof fn law_only_repair_steps_pass(w: WorkView, i: int, j: int)
    requires
        w.wf(),
        0 <= i < w.jobs.len(),
        0 <= j < w.jobs.len(),
        w.jobs[j].passed.contains(w.jobs[i].id),
    ensures
        w.jobs[j].kind.is_continuation(),
        w.jobs[i].kind is Flush,
        i < j,
{
    assert(w.jobs[j].deps.contains(w.jobs[i].id));
    let k = choose|k: int| 0 <= k < w.jobs[j].deps.len() && w.jobs[j].deps[k] == w.jobs[i].id;
    assert(w.jobs[j].deps[k] < w.jobs[j].id);
    if j < i {
        assert(w.jobs[j].id < w.jobs[i].id);
    }
}

/// What a step of a repair passes when the search for work lets it out of
/// the state `New`: flushes that have not finished and that the repair of
/// the step's own extent, under way at that time, keeps back. Such a flush
/// covers the extent under repair, or waits for a job that the repair
/// holds back.
pub proof fn law_passed_flushes_are_kept_back(
    w: WorkView,
    repair: Option<RepairState>,
    j: int,
    x: int,
)
    requires
        w.wf(),
        0 <= j < w.jobs.len(),
        0 <= x < w.jobs.len(),
        w.jobs[j].state is New,
        w.promoted(repair).jobs[j].passed.contains(w.jobs[x].id),
    ensures
        w.jobs[x].kind is Flush,
        !finished(w.jobs[x].state),
        repair is Some,
        w.jobs[j].kind.repair_target() == Some(repair->0.extent),
        w.kept_back(x, repair),
{
    let d = w.jobs[x].id;
    if w.can_clear(j, repair) {
        assert(w.undone(j).contains(d));
        let k = choose|k: int| 0 <= k < w.jobs[j].deps.len() && w.jobs[j].deps[k] == d;
        assert(w.dep_clear(j, w.jobs[j].deps[k], repair));
        assert(!w.dep_done(d));
        let y = choose|y: int| #[trigger] w.is_at(d, y) && w.may_pass(j, y, repair);
        lemma_one_job_per_id(w, x, y);
    } else {
        assert(cleared(w.jobs[j].state));
    }
}

/// A flush that the repair under way does not keep back stops every job
/// that arrived after it, the later steps of the repair among them: while
/// the flush has not finished, the search for work leaves them `New`.
pub proof fn law_free_flush_stops_every_job(
    w: WorkView,
    repair: Option<RepairState>,
    i: int,
    j: int,
)
    requires
        w.wf(),
        0 <= i < j < w.jobs.len(),
        w.jobs[i].kind is Flush,
        !finished(w.jobs[i].state),
        !w.kept_back(i, repair),
        w.jobs[j].state is New,
    ensures
        w.promoted(repair).jobs[j].state is New,
{
    let d = w.jobs[i].id;
    assert(needs(w.jobs[j].kind, w.jobs[i].kind, w.extent_size as int));
    assert(w.jobs[j].deps.contains(d));
    let k = choose|k: int| 0 <= k < w.jobs[j].deps.len() && w.jobs[j].deps[k] == d;
    if w.can_clear(j, repair) {
        assert(w.dep_clear(j, w.jobs[j].deps[k], repair));
        assert(w.is_at(d, i));
        assert(!w.dep_done(d));
        let y = choose|y: int| #[trigger] w.is_at(d, y) && w.may_pass(j, y, repair);
        lemma_one_job_per_id(w, i, y);
    }
}

/// A step of a repair does not leave the state `New` before every earlier
/// step of the repair of the same extent has finished, and the closing of
/// an extent not before every earlier job that touches the extent has
/// finished.
pub proof fn law_repair_waits_for_its_extent(w: WorkView, i: int, j: int)
    requires
        w.wf(),
        0 <= i < j < w.jobs.len(),
        cleared(w.jobs[j].state),
        (w.jobs[j].kind.is_continuation() && w.jobs[i].kind.repair_target() is Some
            && w.jobs[i].kind.repair_target() == w.jobs[j].kind.repair_target()) || (w.jobs[j].kind
            is ExtentClose && w.jobs[j].kind.overlaps(w.jobs[i].kind, w.extent_size as int)),
    ensures
        finished(w.jobs[i].state),
{
    if w.jobs[j].passed.contains(w.jobs[i].id) {
        assert(w.jobs[i].kind is Flush);
    }
    lemma_finish_in_order(w, i, j);
}

/// A job waits for nothing but what it has to wait for: an earlier job that
/// it does not have to wait for is not among its dependencies, and whatever
/// state that job is in makes no difference to whether all that the later
/// one waits for has finished.
pub proof fn law_unrelated_job_never_delays(w: WorkView, i: int, j: int, state: JobState)
    requires
        w.wf(),
        0 <= i < j < w.jobs.len(),
        !needs(w.jobs[j].kind, w.jobs[i].kind, w.extent_size as int),
    ensures
        !w.jobs[j].deps.contains(w.jobs[i].id),
        w.with_state(i, state).deps_done(j) == w.deps_done(j),
{
    let s = w.with_state(i, state);
    assert(!w.jobs[j].deps.contains(w.jobs[i].id));
    assert(s.jobs[j].deps == w.jobs[j].deps);
    if w.deps_done(j) {
        assert forall|k: int| 0 <= k < s.jobs[j].deps.len() implies s.dep_done(
            #[trigger] s.jobs[j].deps[k],
        ) by {
            let d = w.jobs[j].deps[k];
            assert(w.dep_done(d));
            assert(w.jobs[j].deps.contains(d));
            assert forall|x: int| 0 <= x < s.jobs.len() && (#[trigger] s.jobs[x]).id == d
                implies finished(
                s.jobs[x].state,
            ) by {
                assert(w.jobs[x].id == d);
                assert(x != i);
            }
        }
    }
    if s.deps_done(j) {
        assert forall|k: int| 0 <= k < w.jobs[j].deps.len() implies w.dep_done(
            #[trigger] w.jobs[j].deps[k],
        ) by {
            let d = w.jobs[j].deps[k];
            assert(s.dep_done(s.jobs[j].deps[k]));
            assert(w.jobs[j].deps.contains(d));
            assert forall|x: int| 0 <= x < w.jobs.len() && (#[trigger] w.jobs[x]).id == d
                implies finished(
                w.jobs[x].state,
            ) by {
                assert(s.jobs[x].id == d);
                assert(x != i);
            }
        }
    }
}

/// Reads and writes whose blocks lie in different extents do not have to
/// wait for one another, whichever arrived first.
pub proof fn law_distinct_extents_are_independent(
    a: JobKind,
    b: JobKind,
    es: int,
    extent_a: int,
    extent_b: int,
)
    requires
        0 < es,
        a is Read || a is Write,
        b is Read || b is Write,
        extent_a != extent_b,
        extent_a * es <= a.lo(es) && a.hi(es) <= extent_a * es + es,
        extent_b * es <= b.lo(es) && b.hi(es) <= extent_b * es + es,
    ensures
        !needs(a, b, es),
        !needs(b, a, es),
{
    if extent_a < extent_b {
        assert(extent_a * es + es <= extent_b * es) by (nonlinear_arith)
            requires
                extent_a + 1 <= extent_b,
                0 < es,
        ;
    } else {
        assert(extent_b * es + es <= extent_a * es) by (nonlinear_arith)
            requires
                extent_b + 1 <= extent_a,
                0 < es,
        ;
    }
}

/// Two accepted writes to disjoint blocks give the same region in either
/// order.
pub proof fn law_disjoint_writes_commute(
    v: RegionView,
    start_a: int,
    count_a: int,
    data_a: Seq<u8>,
    start_b: int,
    count_b: int,
    data_b: Seq<u8>,
)
    requires
        v.wf(),
        v.in_bounds(start_a, count_a),
        v.in_bounds(start_b, count_b),
        start_a + count_a <= start_b || start_b + count_b <= start_a,
    ensures
        v.write(start_a, count_a, data_a).write(start_b, count_b, data_b) == v.write(
            start_b,
            count_b,
            data_b,
        ).write(start_a, count_a, data_a),
{
    let ab = v.write(start_a, count_a, data_a).write(start_b, count_b, data_b);
    let ba = v.write(start_b, count_b, data_b).write(start_a, count_a, data_a);
    assert(ab.blocks =~= ba.blocks);
    assert(ab.dirty =~= ba.dirty);
}

/// Across a repair that succeeds, the generation of the repaired extent
/// rises and no block of it stays dirty: from the closing of the extent
/// through the transfer of its contents, the new generation and the final
/// flush to its return to service. The generations of the other extents
/// stay as they were.
pub proof fn law_repair_raises_generation(
    v: RegionView,
    e: u32,
    source: RepairSource,
    content: Option<Seq<u8>>,
    generation: u64,
)
    requires
        v.wf(),
        v.close_error(e) is None,
        v.source_usable(source, content),
        generation > v.generation[e as int],
    ensures
        ({
            let closed = v.closed(e);
            let repaired = closed.repaired(e, source, content);
            let reopened = repaired.reopened(e, generation);
            let flushed = reopened.repair_flushed(e);
            let open = flushed.with_repair(None);
            &&& closed.step_refused(e, RepairStep::Closed) is None
            &&& !closed.repair_exhausted()
            &&& repaired.step_refused(e, RepairStep::Repairing) is None
            &&& generation > repaired.generation[e as int]
            &&& reopened.step_refused(e, RepairStep::Reopening) is None
            &&& flushed.step_refused(e, RepairStep::Verifying) is None
            &&& !flushed.extent_dirty(e as int)
            &&& open.wf()
            &&& open.repair is None
            &&& open.generation[e as int] > v.generation[e as int]
            &&& !open.extent_dirty(e as int)
            &&& forall|x: int|
                0 <= x < v.def.extent_count && x != e ==> open.generation[x] == v.generation[x]
        }),
{
    let closed = v.closed(e);
    let repaired = closed.repaired(e, source, content);
    let reopened = repaired.reopened(e, generation);
    let flushed = reopened.repair_flushed(e);
    let open = flushed.with_repair(None);
    let es = v.def.extent_size as int;
    lemma_total_blocks_fit(v.def);
    assert(e * es + es <= es * v.def.extent_count) by (nonlinear_arith)
        requires
            0 <= e < v.def.extent_count,
            0 <= es,
    ;
    assert(0 <= e * es) by (nonlinear_arith)
        requires
            0 <= e,
            0 <= es,
    ;
    if source == RepairSource::Peer {
        lemma_write_wf(closed, closed.extent_start(e), es, content->0);
    }
    assert(repaired.wf());
    assert(reopened.wf());
    lemma_max_of(reopened.flush_number);
    lemma_flushed_clean(
        reopened,
        max_of(reopened.flush_number),
        reopened.generation[e as int],
        e as int,
    );
    assert(flushed.dirty == reopened.flush(
        max_of(reopened.flush_number),
        reopened.generation[e as int],
        v.def.extent_count as int,
    ).dirty);
}

/// Whatever job is carried out, no generation and no flush number of any
/// extent falls, and a generation changes only when an extent under repair
/// is given its new one.
pub proof fn law_numbers_never_fall(kind: JobKind, v: RegionView, x: int)
    requires
        v.wf(),
        0 <= x < v.def.extent_count,
    ensures
        applied(kind, v).generation[x] >= v.generation[x],
        applied(kind, v).flush_number[x] >= v.flush_number[x],
        applied(kind, v).generation[x] != v.generation[x] ==> kind is ExtentReopen,
        applied(kind, v).def == v.def,
{
    match kind {
        JobKind::Flush { flush_number, extent_limit, .. } => {
            if failure(kind, v) is None {
                assert(!(v.flush_number[x] > flush_number && x < v.flush_span(extent_limit)));
            }
        },
        JobKind::ExtentVerify { extent } => {
            if failure(kind, v) is None {
                lemma_max_of(v.flush_number);
            }
        },
        _ => {},
    }
}

/// An image whose definition is valid, whose metadata is well formed,
/// whose extents have their full size and whose generations and flush
/// numbers agree can be opened, whatever else is asked of it.
pub proof fn law_consistent_image_opens(image: RegionImage, verify: bool)
    requires
        image.def.valid(),
        image.metadata_ok(),
        image.sizes_ok(),
        numbers_consistent(image.generations(), image.flush_numbers()),
    ensures
        image.open_error(RegionOptions::unset(), verify) is None,
{
}

/// An image with no repair on record in which one extent has a generation
/// that is not above another's but a flush number that is, cannot be
/// opened: the metadata is corrupt.
pub proof fn law_flush_regression_is_corrupt(
    image: RegionImage,
    options: RegionOptions,
    verify: bool,
    i: int,
    j: int,
)
    requires
        image.def.valid(),
        options.admits(image.def),
        image.repair_record is None,
        0 <= i < image.extents@.len(),
        0 <= j < image.extents@.len(),
        image.extents@[i].generation <= image.extents@[j].generation,
        image.extents@[i].flush_number > image.extents@[j].flush_number,
    ensures
        image.open_error(options, verify) == Some(Error::CorruptMetadata),
{
    assert(image.generations()[i] <= image.generations()[j]);
    assert(image.flush_numbers()[i] > image.flush_numbers()[j]);
}

/// A region that grows keeps its block size, its extent size and what it
/// held, it does not lose an extent, and if its extents agreed on their
/// numbers before, they and the new extents agree afterwards.
pub proof fn law_extension_keeps_consistency(v: RegionView, extent_count: u32)
    requires
        v.wf(),
        v.extend_error(extent_count) is None,
    ensures
        v.extended(extent_count).wf(),
        v.extended(extent_count).def.block_size == v.def.block_size,
        v.extended(extent_count).def.extent_size == v.def.extent_size,
        v.extended(extent_count).def.extent_count >= v.def.extent_count,
        forall|b: int|
            0 <= b < v.def.total_blocks() ==> v.extended(extent_count).blocks[b] == v.blocks[b]
                && v.extended(extent_count).dirty[b] == v.dirty[b],
        v.consistent() ==> v.extended(extent_count).consistent(),
{
    let x = v.extended(extent_count);
    let es = v.def.extent_size as int;
    let n = v.def.extent_count as int;
    lemma_total_blocks_fit(v.def);
    lemma_total_blocks_fit(x.def);
    assert(es * n <= es * extent_count) by (nonlinear_arith)
        requires
            n <= extent_count,
            0 <= es,
    ;
    lemma_max_of(v.generation);
    lemma_max_of(v.flush_number);
    if v.consistent() {
        assert forall|i: int, j: int|
            #![trigger x.generation[i], x.generation[j]]
            0 <= i < x.generation.len() && 0 <= j < x.generation.len() && x.generation[i]
                <= x.generation[j] implies x.flush_number[i] <= x.flush_number[j] by {
            if i < n && j < n {
                assert(v.generation[i] <= v.generation[j]);
            } else if i >= n && j < n {
                lemma_max_of_is_member(v.flush_number);
                let k = choose|k: int| 0 <= k < v.flush_number.len() && v.flush_number[k] == max_of(
                    v.flush_number,
                );
                assert(v.generation[k] <= v.generation[j]);
            }
        }
    }
}

/// At most one extent of a region is out of service at a time.
pub proof fn law_one_extent_offline(repair: Option<RepairState>, a: int, b: int)
    requires
        extent_state(repair, a) != ExtentState::Open,
        extent_state(repair, b) != ExtentState::Open,
    ensures
        a == b,
{
}

/// A read or write that touches a block of the extent under repair is held
/// back for as long as the repair is under way.
pub proof fn law_offline_extent_holds_jobs(kind: JobKind, repair: RepairState, es: int, b: int)
    requires
        kind is Read || kind is Write,
        kind.touches(es, b),
        repair.extent * es <= b < repair.extent * es + es,
    ensures
        held(kind, Some(repair), es),
{
}

/// While the closing of an extent is in progress, no other job that
/// touches the extent, and no flush, is in progress: those that arrived
/// before it have finished, and those that arrived after it have not left
/// the state `New`. So when the extent goes offline, the only jobs that can
/// still reach it are jobs that the repair holds back.
pub proof fn law_closing_runs_alone(w: WorkView, c: int, j: int)
    requires
        w.wf(),
        0 <= c < w.jobs.len(),
        0 <= j < w.jobs.len(),
        j != c,
        w.jobs[c].kind is ExtentClose,
        w.jobs[c].state is InProgress,
        w.jobs[j].kind is Flush || (!w.jobs[j].kind.is_continuation() && w.jobs[j].kind.overlaps(
            w.jobs[c].kind,
            w.extent_size as int,
        )),
    ensures
        j < c ==> finished(w.jobs[j].state),
        j > c ==> w.jobs[j].state is New,
{
    if j < c {
        lemma_passes_nothing(w, c);
        lemma_finish_in_order(w, j, c);
    } else {
        if cleared(w.jobs[j].state) {
            lemma_passes_nothing(w, j);
            lemma_finish_in_order(w, c, j);
        }
    }
}

/// The dispatcher does not get stuck on its own: the oldest job that has
/// not finished, unless it is already in progress, is ready after the next
/// search for work, and unless the repair under way holds it back it may
/// be begun.
pub proof fn law_oldest_job_can_run(w: WorkView, j: int, repair: Option<RepairState>)
    requires
        w.wf(),
        0 <= j < w.jobs.len(),
        w.jobs[j].state is New || w.jobs[j].state is Ready,
        forall|i: int| 0 <= i < j ==> finished(#[trigger] w.jobs[i].state),
        !held(w.jobs[j].kind, repair, w.extent_size as int),
    ensures
        w.promoted(repair).jobs[j].state is Ready,
        w.promoted(repair).startable(j, repair),
{
    assert forall|k: int| 0 <= k < w.jobs[j].deps.len() implies w.dep_clear(
        j,
        #[trigger] w.jobs[j].deps[k],
        repair,
    ) by {
        let d = w.jobs[j].deps[k];
        assert(d < w.jobs[j].id);
        assert forall|x: int| 0 <= x < w.jobs.len() && (#[trigger] w.jobs[x]).id == d
            implies finished(w.jobs[x].state) by {
            if x > j {
                assert(w.jobs[j].id < w.jobs[x].id);
            }
            if x < j {
                assert(finished(w.jobs[x].state));
            }
        }
    }
    assert(w.can_clear(j, repair));
}

/// A repair is not stuck behind what it keeps back: a later step of the
/// repair under way is ready after the next search for work, and may be
/// begun, once the earlier steps of the repair of its extent have finished
/// and every earlier flush has finished or is kept back by the repair.
pub proof fn law_repair_can_proceed(w: WorkView, j: int, repair: Option<RepairState>)
    requires
        w.wf(),
        0 <= j < w.jobs.len(),
        w.jobs[j].kind.is_continuation(),
        w.jobs[j].state is New || w.jobs[j].state is Ready,
        repair is Some,
        w.jobs[j].kind.repair_target() == Some(repair->0.extent),
        forall|i: int|
            0 <= i < j && (#[trigger] w.jobs[i]).kind.repair_target()
                == w.jobs[j].kind.repair_target() ==> finished(w.jobs[i].state),
        forall|i: int|
            0 <= i < j && (#[trigger] w.jobs[i]).kind is Flush ==> finished(w.jobs[i].state)
                || w.kept_back(i, repair),
    ensures
        w.promoted(repair).jobs[j].state is Ready,
        w.promoted(repair).startable(j, repair),
{
    let es = w.extent_size as int;
    assert forall|k: int| 0 <= k < w.jobs[j].deps.len() implies w.dep_clear(
        j,
        #[trigger] w.jobs[j].deps[k],
        repair,
    ) by {
        let d = w.jobs[j].deps[k];
        assert(d < w.jobs[j].id);
        assert(w.jobs[j].deps.contains(d));
        if !w.dep_done(d) {
            let x = choose|x: int|
                0 <= x < w.jobs.len() && (#[trigger] w.jobs[x]).id == d && !finished(
                    w.jobs[x].state,
                );
            if x > j {
                assert(w.jobs[j].id < w.jobs[x].id);
            }
            assert(w.jobs[j].deps.contains(w.jobs[x].id));
            assert(needs(w.jobs[j].kind, w.jobs[x].kind, es));
            assert(w.is_at(d, x) && w.may_pass(j, x, repair));
        }
    }
    assert(w.can_clear(j, repair));
}

} // verus!
