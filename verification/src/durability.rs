//! The storage steps of a flush and the order in which they are issued.
//!
//! A flush makes the data of the extents it covers durable first, then
//! records the new flush number and clears the dirty bits, then makes that
//! record durable. Only after the last step may the flush be acknowledged.

use vstd::prelude::*;

verus! {

/// One storage step of a flush.
#[derive(Clone, Copy, Debug, PartialEq, Eq, Structural)]
pub enum FlushStep {
    /// Wait until every write issued to the extent's data is on stable
    /// storage.
    SyncData { extent: u32 },
    /// Record the flush number and the generation that came with it, and
    /// clear the extent's dirty bits, in one atomic update.
    WriteMeta { extent: u32, flush_number: u64, generation: u64 },
    /// Wait until the extent's metadata record is on stable storage.
    SyncMeta { extent: u32 },
}

/// The steps of a flush of the first `span` extents, in the order in which
/// they are issued: a data barrier for each extent, then the metadata
/// update of each, then a metadata barrier for each.
pub open spec fn flush_steps(span: int, flush_number: u64, generation: u64) -> Seq<FlushStep> {
    Seq::new(
        (3 * span) as nat,
        |k: int|
            if k < span {
                FlushStep::SyncData { extent: k as u32 }
            } else if k < 2 * span {
                FlushStep::WriteMeta { extent: (k - span) as u32, flush_number, generation }
            } else {
                FlushStep::SyncMeta { extent: (k - 2 * span) as u32 }
            },
    )
}

/// Whether the first `done` steps of `steps` contain `step`.
pub open spec fn issued(steps: Seq<FlushStep>, done: int, step: FlushStep) -> bool {
    exists|k: int| 0 <= k < done && k < steps.len() && #[trigger] steps[k] == step
}

/// Builds the steps of a flush of the first `span` extents.
pub fn plan_flush(span: u32, flush_number: u64, generation: u64) -> (plan: Vec<FlushStep>)
    ensures
        plan@ == flush_steps(span as int, flush_number, generation),
{
    let mut plan: Vec<FlushStep> = Vec::new();
    let mut e: u32 = 0;
    while e < span
        invariant
            e <= span,
            plan@.len() == e,
            forall|k: int| 0 <= k < e ==> plan@[k]
                == flush_steps(span as int, flush_number, generation)[k],
        decreases span - e,
    {
        plan.push(FlushStep::SyncData { extent: e });
        e += 1;
    }
    let mut e: u32 = 0;
    while e < span
        invariant
            e <= span,
            plan@.len() == span + e,
            forall|k: int|
                0 <= k < span + e ==> plan@[k]
                    == flush_steps(span as int, flush_number, generation)[k],
        decreases span - e,
    {
        plan.push(FlushStep::WriteMeta { extent: e, flush_number, generation });
        e += 1;
    }
    let mut e: u32 = 0;
    while e < span
        invariant
            e <= span,
            plan@.len() == 2 * span + e,
            forall|k: int|
                0 <= k < 2 * span + e ==> plan@[k] == flush_steps(
                    span as int,
                    flush_number,
                    generation,
                )[k],
        decreases span - e,
    {
        plan.push(FlushStep::SyncMeta { extent: e });
        e += 1;
    }
    assert(plan@ =~= flush_steps(span as int, flush_number, generation));
    plan
}

/// However far a flush got before a crash, an extent whose metadata shows
/// the flush has its data on stable storage: the metadata update of an
/// extent is never issued before that extent's data barrier. And once the
/// whole plan was carried out, the metadata barrier of every covered
/// extent was issued.
pub proof fn law_flush_barriers(
    span: int,
    flush_number: u64,
    generation: u64,
    done: int,
    extent: u32,
)
    requires
        0 <= span <= u32::MAX,
        0 <= done <= 3 * span,
        extent < span,
    ensures
        issued(
            flush_steps(span, flush_number, generation),
            done,
            FlushStep::WriteMeta { extent, flush_number, generation },
        ) ==> issued(
            flush_steps(span, flush_number, generation),
            done,
            FlushStep::SyncData { extent },
        ),
        issued(
            flush_steps(span, flush_number, generation),
            done,
            FlushStep::SyncMeta { extent },
        ) ==> issued(
            flush_steps(span, flush_number, generation),
            done,
            FlushStep::WriteMeta { extent, flush_number, generation },
        ),
        done == 3 * span ==> issued(
            flush_steps(span, flush_number, generation),
            done,
            FlushStep::SyncMeta { extent },
        ),
{
    let steps = flush_steps(span, flush_number, generation);
    let write = FlushStep::WriteMeta { extent, flush_number, generation };
    if issued(steps, done, write) {
        let k = choose|k: int| 0 <= k < done && k < steps.len() && #[trigger] steps[k] == write;
        assert(k == span + extent);
        assert(steps[extent as int] == FlushStep::SyncData { extent });
    }
    if issued(steps, done, FlushStep::SyncMeta { extent }) {
        let k = choose|k: int|
            0 <= k < done && k < steps.len() && #[trigger] steps[k] == (FlushStep::SyncMeta {
                extent,
            });
        assert(k == 2 * span + extent);
        assert(steps[span + extent] == write);
    }
    if done == 3 * span {
        assert(steps[2 * span + extent] == FlushStep::SyncMeta { extent });
    }
}

} // verus!
