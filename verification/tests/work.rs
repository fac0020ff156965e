use downstairs::definition::{RegionDefinition, RegionOptions};
use downstairs::downstairs::{severity, Downstairs, FatalReport, Fault, Reply};
use downstairs::durability::FlushStep;
use downstairs::error::{Error, Severity};
use downstairs::extent::Extent;
use downstairs::region::{Region, RegionImage};
use downstairs::repair::{ExtentState, RepairSource};
use downstairs::job::{JobKind, JobState};
use downstairs::work::Work;

fn read(start: u64, count: u64) -> JobKind {
    JobKind::Read { start, count }
}

fn write(start: u64, count: u64, byte: u8) -> JobKind {
    JobKind::Write { start, count, data: vec![byte; (count * 2) as usize] }
}

fn flush(n: u64) -> JobKind {
    JobKind::Flush { flush_number: n, generation_number: 0, extent_limit: None }
}

fn engine() -> Downstairs {
    let def = RegionDefinition { block_size: 2, extent_size: 2, extent_count: 3, uuid: 1, encrypted: false };
    Downstairs::new(Region::create(def, false, None).unwrap(), false, false)
}

fn run(d: &mut Downstairs, id: u64) -> Result<Reply, Error> {
    assert!(d.begin(id));
    d.complete(id, Fault::Clear).unwrap().result
}

#[test]
fn dependencies_follow_overlap_and_arrival() {
    let mut w = Work::new(2);
    let a = w.submit(write(0, 2, 1)).unwrap();
    let b = w.submit(write(2, 2, 2)).unwrap();
    let c = w.submit(read(1, 2)).unwrap();
    let d = w.submit(read(4, 1)).unwrap();
    assert_eq!((a, b, c, d), (0, 1, 2, 3));
    assert_eq!(w.dependencies(a).unwrap(), Vec::<u64>::new());
    assert_eq!(w.dependencies(b).unwrap(), Vec::<u64>::new());
    assert_eq!(w.dependencies(c).unwrap(), vec![a, b]);
    assert_eq!(w.dependencies(d).unwrap(), Vec::<u64>::new());
    assert!(w.dependencies(9).is_none());
    assert_eq!(w.state(c), Some(JobState::New));
    assert_eq!(w.len(), 4);
}

#[test]
fn empty_ranges_touch_nothing() {
    let mut w = Work::new(2);
    let a = w.submit(write(0, 2, 1)).unwrap();
    let b = w.submit(read(1, 0)).unwrap();
    let c = w.submit(write(1, 1, 1)).unwrap();
    assert_eq!(w.dependencies(b).unwrap(), Vec::<u64>::new());
    assert_eq!(w.dependencies(c).unwrap(), vec![a]);
}

#[test]
fn flush_is_a_barrier_in_both_directions() {
    let mut w = Work::new(2);
    let a = w.submit(write(0, 1, 1)).unwrap();
    let b = w.submit(read(4, 1)).unwrap();
    let f = w.submit(flush(1)).unwrap();
    let c = w.submit(read(5, 1)).unwrap();
    assert_eq!(w.dependencies(f).unwrap(), vec![a, b]);
    assert_eq!(w.dependencies(c).unwrap(), vec![f]);
    w.promote(None);
    assert_eq!(w.state(a), Some(JobState::Ready));
    assert_eq!(w.state(b), Some(JobState::Ready));
    assert_eq!(w.state(f), Some(JobState::New));
    assert_eq!(w.state(c), Some(JobState::New));
    assert!(!w.begin(f, None));
    assert!(w.begin(b, None));
    assert!(w.finish(b, Ok(())));
    w.promote(None);
    assert_eq!(w.state(f), Some(JobState::New));
    assert!(w.begin(a, None));
    assert!(w.finish(a, Err(Error::IoFailure)));
    assert_eq!(w.state(a), Some(JobState::Error { cause: Error::IoFailure }));
    w.promote(None);
    assert_eq!(w.state(f), Some(JobState::Ready));
    assert_eq!(w.state(c), Some(JobState::New));
    assert_eq!(w.next_ready(None), Some(f));
    assert!(w.begin(f, None));
    w.promote(None);
    assert_eq!(w.state(c), Some(JobState::New));
    assert!(w.finish(f, Ok(())));
    w.promote(None);
    assert_eq!(w.state(c), Some(JobState::Ready));
}

#[test]
fn finished_jobs_are_not_waited_for() {
    let mut w = Work::new(2);
    let a = w.submit(write(0, 1, 1)).unwrap();
    w.promote(None);
    assert!(w.begin(a, None));
    assert!(w.finish(a, Ok(())));
    let b = w.submit(write(0, 1, 2)).unwrap();
    assert_eq!(w.dependencies(b).unwrap(), Vec::<u64>::new());
}

#[test]
fn job_states_move_forward_only() {
    let mut w = Work::new(2);
    let a = w.submit(read(0, 1)).unwrap();
    assert!(!w.begin(a, None));
    assert!(!w.finish(a, Ok(())));
    assert!(!w.acknowledge(a));
    assert!(!w.retire(a));
    w.promote(None);
    assert!(!w.finish(a, Ok(())));
    assert!(w.begin(a, None));
    assert!(!w.begin(a, None));
    assert_eq!(w.state(a), Some(JobState::InProgress));
    assert!(w.finish(a, Ok(())));
    assert!(!w.finish(a, Err(Error::IoFailure)));
    assert_eq!(w.state(a), Some(JobState::Complete));
    assert!(!w.retire(a));
    assert!(w.acknowledge(a));
    assert!(w.retire(a));
    assert_eq!(w.state(a), None);
    assert_eq!(w.len(), 0);
    assert!(!w.begin(77, None));
}

#[test]
fn job_is_kept_while_an_unfinished_job_waits_for_it() {
    let mut w = Work::new(2);
    let a = w.submit(write(0, 1, 1)).unwrap();
    let b = w.submit(read(0, 1)).unwrap();
    w.promote(None);
    assert!(w.begin(a, None));
    assert!(w.finish(a, Ok(())));
    assert!(w.acknowledge(a));
    assert!(!w.retire(a));
    w.promote(None);
    assert!(w.begin(b, None));
    assert!(!w.retire(a));
    assert!(w.finish(b, Ok(())));
    assert!(w.retire(a));
    assert_eq!(w.state(b), Some(JobState::Complete));
}

#[test]
fn teardown_gives_up_only_jobs_not_yet_begun() {
    let mut w = Work::new(2);
    let a = w.submit(write(0, 1, 1)).unwrap();
    let b = w.submit(write(2, 1, 1)).unwrap();
    let c = w.submit(read(0, 1)).unwrap();
    let d = w.submit(read(4, 1)).unwrap();
    w.promote(None);
    assert!(w.begin(a, None));
    assert!(w.finish(a, Ok(())));
    assert!(w.begin(b, None));
    assert_eq!(w.teardown(), 2);
    assert_eq!(w.len(), 2);
    assert_eq!(w.state(a), Some(JobState::Complete));
    assert_eq!(w.state(b), Some(JobState::InProgress));
    assert_eq!(w.state(c), None);
    assert_eq!(w.state(d), None);
    assert!(w.finish(b, Ok(())));
    assert_eq!(w.submit(read(0, 1)), Some(4));
}

#[test]
fn read_after_overlapping_write_sees_the_write() {
    let mut d = engine();
    let a = d.submit(write(1, 2, 7)).unwrap();
    let b = d.submit(read(2, 2)).unwrap();
    assert_eq!(d.next_job(false), Some(a));
    assert!(!d.begin(b));
    assert!(d.complete(b, Fault::Clear).is_none());
    assert!(d.begin(a));
    assert_eq!(d.next_job(false), None);
    assert!(matches!(d.complete(a, Fault::Clear).unwrap().result, Ok(Reply::Written)));
    assert_eq!(d.next_job(false), Some(b));
    match run(&mut d, b) {
        Ok(Reply::Read { data }) => assert_eq!(data, vec![7, 7, 0, 0]),
        other => panic!("unexpected {:?}", other),
    }
}

#[test]
fn writes_to_disjoint_extents_run_in_any_order() {
    let mut d = engine();
    let a = d.submit(write(0, 2, 1)).unwrap();
    let b = d.submit(write(2, 2, 2)).unwrap();
    let c = d.submit(write(4, 2, 3)).unwrap();
    assert_eq!(d.work().dependencies(b).unwrap(), Vec::<u64>::new());
    assert_eq!(d.work().dependencies(c).unwrap(), Vec::<u64>::new());
    assert_eq!(d.next_job(false), Some(a));
    assert!(d.begin(c));
    assert!(d.begin(a));
    assert!(d.begin(b));
    assert!(d.complete(b, Fault::Clear).unwrap().result.is_ok());
    assert!(d.complete(c, Fault::Clear).unwrap().result.is_ok());
    assert_eq!(d.work().state(a), Some(JobState::InProgress));
    assert!(d.complete(a, Fault::Clear).unwrap().result.is_ok());
    assert_eq!(d.region().read(0, 6).unwrap(), vec![1, 1, 1, 1, 2, 2, 2, 2, 3, 3, 3, 3]);
}

#[test]
fn flush_job_hands_back_the_storage_steps() {
    let mut d = engine();
    let a = d.submit(write(0, 1, 1)).unwrap();
    let f = d.submit(JobKind::Flush { flush_number: 3, generation_number: 1, extent_limit: Some(1) }).unwrap();
    assert_eq!(d.next_job(false), Some(a));
    assert!(run(&mut d, a).is_ok());
    assert_eq!(d.next_job(false), Some(f));
    match run(&mut d, f) {
        Ok(Reply::Flushed { steps }) => assert_eq!(
            steps,
            vec![
                FlushStep::SyncData { extent: 0 },
                FlushStep::WriteMeta { extent: 0, flush_number: 3, generation: 1 },
                FlushStep::SyncMeta { extent: 0 },
            ]
        ),
        other => panic!("unexpected {:?}", other),
    }
    assert!(!d.region().extent_meta(0).unwrap().dirty);
}

#[test]
fn failed_job_is_reported_and_leaves_the_region_alone() {
    let mut d = engine();
    let a = d.submit(write(5, 2, 1)).unwrap();
    let b = d.submit(write(0, 1, 4)).unwrap();
    assert_eq!(d.next_job(false), Some(a));
    let done = { assert!(d.begin(a)); d.complete(a, Fault::Clear).unwrap() };
    assert_eq!(done.id, a);
    assert_eq!(done.result.err(), Some(Error::OutOfBounds));
    assert_eq!(done.severity, Severity::Job);
    assert_eq!(d.work().state(a), Some(JobState::Error { cause: Error::OutOfBounds }));
    assert!(d.begin(b));
    let done = d.complete(b, Fault::Storage { extent: 0 }).unwrap();
    assert_eq!(done.result.err(), Some(Error::IoFailure));
    assert_eq!(done.severity, Severity::Job);
    assert_eq!(done.report, None);
    assert_eq!(d.region().read(0, 1).unwrap(), vec![0, 0]);
    assert!(!d.region().extent_meta(0).unwrap().dirty);
}

#[test]
fn injected_faults_count_only_when_asked_for() {
    let mut d = engine();
    let a = d.submit(write(0, 1, 4)).unwrap();
    assert_eq!(d.next_job(false), Some(a));
    assert!(d.begin(a));
    assert!(d.complete(a, Fault::Injected).unwrap().result.is_ok());
    assert_eq!(d.region().read(0, 1).unwrap(), vec![4, 4]);

    let def = RegionDefinition { block_size: 2, extent_size: 2, extent_count: 3, uuid: 1, encrypted: false };
    let mut d = Downstairs::new(Region::create(def, false, None).unwrap(), false, true);
    let a = d.submit(flush(1)).unwrap();
    assert_eq!(d.next_job(false), Some(a));
    assert!(d.begin(a));
    let done = d.complete(a, Fault::Injected).unwrap();
    assert_eq!(done.result.err(), Some(Error::IoFailure));
    assert_eq!(done.severity, Severity::Process);
    assert_eq!(done.report, None);
    assert_eq!(d.region().extent_meta(0).unwrap().flush_number, 0);
}

#[test]
fn storage_failure_during_a_flush_is_reported_with_the_extent() {
    let mut d = engine();
    let a = d.submit(flush(4)).unwrap();
    assert_eq!(d.next_job(false), Some(a));
    assert!(run(&mut d, a).is_ok());
    let b = d.submit(flush(6)).unwrap();
    assert_eq!(d.next_job(false), Some(b));
    assert!(d.begin(b));
    let done = d.complete(b, Fault::Storage { extent: 2 }).unwrap();
    assert_eq!(done.result.err(), Some(Error::IoFailure));
    assert_eq!(done.severity, Severity::Process);
    assert_eq!(done.report, Some(FatalReport { extent: 2, generation: 0, flush_number: 4 }));
    let c = d.submit(flush(7)).unwrap();
    assert_eq!(d.next_job(false), Some(c));
    assert!(d.begin(c));
    let done = d.complete(c, Fault::Storage { extent: 9 }).unwrap();
    assert_eq!(done.severity, Severity::Process);
    assert_eq!(done.report, None);
}

#[test]
fn lossy_engine_skips_a_round_on_request() {
    let def = RegionDefinition { block_size: 2, extent_size: 2, extent_count: 3, uuid: 1, encrypted: false };
    let mut d = Downstairs::new(Region::create(def, false, None).unwrap(), true, false);
    let a = d.submit(read(0, 1)).unwrap();
    assert_eq!(d.next_job(true), None);
    assert_eq!(d.work().state(a), Some(JobState::New));
    assert_eq!(d.next_job(false), Some(a));
    let mut d = engine();
    let a = d.submit(read(0, 1)).unwrap();
    assert_eq!(d.next_job(true), Some(a));
}

#[test]
fn jobs_on_an_extent_under_repair_wait_for_the_repair() {
    let mut d = engine();
    let close = d.submit(JobKind::ExtentClose { extent: 1 }).unwrap();
    let w1 = d.submit(write(2, 1, 5)).unwrap();
    let w0 = d.submit(write(0, 1, 6)).unwrap();
    let whole = d.submit(flush(2)).unwrap();
    let repair = d.submit(JobKind::ExtentRepair {
        extent: 1,
        source: RepairSource::Peer,
        content: Some(vec![9, 9, 9, 9]),
    }).unwrap();
    let reopen = d.submit(JobKind::ExtentReopen { extent: 1, generation: 3 }).unwrap();
    let verify = d.submit(JobKind::ExtentVerify { extent: 1 }).unwrap();
    assert_eq!(d.work().dependencies(w1).unwrap(), vec![close]);
    assert_eq!(d.work().dependencies(w0).unwrap(), Vec::<u64>::new());
    assert_eq!(d.work().dependencies(whole).unwrap(), vec![close, w1, w0]);
    assert_eq!(d.work().dependencies(repair).unwrap(), vec![close, whole]);
    assert_eq!(d.work().dependencies(reopen).unwrap(), vec![close, whole, repair]);
    assert_eq!(d.work().dependencies(verify).unwrap(), vec![close, whole, repair, reopen]);

    assert_eq!(d.next_job(false), Some(close));
    assert!(matches!(run(&mut d, close), Ok(Reply::Closed)));
    assert_eq!(d.region().extent_state(1), ExtentState::Closed);

    assert_eq!(d.next_job(false), Some(w0));
    assert_eq!(d.work().state(w1), Some(JobState::Ready));
    assert!(!d.begin(w1));
    assert!(run(&mut d, w0).is_ok());

    assert_eq!(d.next_job(false), Some(repair));
    assert_eq!(d.work().state(whole), Some(JobState::New));
    assert_eq!(d.work().passed(repair).unwrap(), vec![whole]);
    assert_eq!(d.work().passed(w1).unwrap(), Vec::<u64>::new());
    assert!(matches!(run(&mut d, repair), Ok(Reply::Repaired)));
    assert_eq!(d.next_job(false), Some(reopen));
    assert_eq!(d.work().passed(reopen).unwrap(), vec![whole]);
    assert!(!d.begin(w1));
    assert!(matches!(run(&mut d, reopen), Ok(Reply::Reopened)));
    assert_eq!(d.next_job(false), Some(verify));
    match run(&mut d, verify) {
        Ok(Reply::Verified { steps }) => assert_eq!(steps.len(), 9),
        other => panic!("unexpected {:?}", other),
    }
    assert_eq!(d.region().extent_state(1), ExtentState::Open);
    assert_eq!(d.region().extent_meta(1).unwrap().generation, 3);

    assert_eq!(d.next_job(false), Some(w1));
    assert!(run(&mut d, w1).is_ok());
    assert_eq!(d.next_job(false), Some(whole));
    assert!(run(&mut d, whole).is_ok());
    assert_eq!(d.region().read(2, 2).unwrap(), vec![5, 5, 9, 9]);
    assert!(!d.region().extent_meta(1).unwrap().dirty);
}

#[test]
fn limited_flush_passes_an_extent_under_repair() {
    let mut d = engine();
    let close = d.submit(JobKind::ExtentClose { extent: 1 }).unwrap();
    assert_eq!(d.next_job(false), Some(close));
    assert!(run(&mut d, close).is_ok());
    let below = d.submit(JobKind::Flush { flush_number: 1, generation_number: 0, extent_limit: Some(1) }).unwrap();
    let over = d.submit(JobKind::Flush { flush_number: 2, generation_number: 0, extent_limit: Some(2) }).unwrap();
    let second = d.submit(JobKind::ExtentClose { extent: 2 }).unwrap();
    assert_eq!(d.next_job(false), Some(below));
    assert!(run(&mut d, below).is_ok());
    assert_eq!(d.next_job(false), None);
    assert_eq!(d.work().state(over), Some(JobState::Ready));
    assert_eq!(d.work().state(second), Some(JobState::New));
    assert!(!d.begin(over));
}

#[test]
fn exhausted_repair_costs_the_connection() {
    let mut d = engine();
    let close = d.submit(JobKind::ExtentClose { extent: 0 }).unwrap();
    assert_eq!(d.next_job(false), Some(close));
    assert!(run(&mut d, close).is_ok());
    let mut last = Severity::Job;
    for _ in 0..3 {
        let r = d.submit(JobKind::ExtentRepair { extent: 0, source: RepairSource::Peer, content: None }).unwrap();
        assert_eq!(d.next_job(false), Some(r));
        assert!(d.begin(r));
        let done = d.complete(r, Fault::Clear).unwrap();
        assert_eq!(done.result.err(), Some(Error::RepairFailed));
        last = done.severity;
        if last == Severity::Connection {
            assert_eq!(done.report, Some(FatalReport { extent: 0, generation: 0, flush_number: 0 }));
        } else {
            assert_eq!(done.report, None);
        }
    }
    assert_eq!(last, Severity::Connection);
    assert_eq!(severity(&flush(1), Error::IoFailure, false), Severity::Process);
    assert_eq!(severity(&JobKind::ExtentVerify { extent: 0 }, Error::IoFailure, false), Severity::Process);
    assert_eq!(severity(&read(0, 1), Error::IoFailure, true), Severity::Job);
    assert_eq!(severity(&read(0, 1), Error::RepairFailed, true), Severity::Connection);
    assert_eq!(severity(&read(0, 1), Error::OutOfBounds, true), Severity::Job);
}

#[test]
fn kinds_know_what_they_wait_for() {
    let es = 4;
    let w = |start, count| JobKind::Write { start, count, data: Vec::new() };
    assert!(w(0, 4).depends_on(&read(3, 1), es));
    assert!(!w(0, 4).depends_on(&read(4, 1), es));
    assert!(!w(0, 0).depends_on(&read(0, 1), es));
    assert!(read(0, 1).depends_on(&read(0, 1), es));
    assert!(read(9, 1).depends_on(&flush(1), es));
    assert!(flush(1).depends_on(&read(9, 1), es));
    assert!(flush(2).depends_on(&flush(1), es));
    let close = JobKind::ExtentClose { extent: 1 };
    let reopen = JobKind::ExtentReopen { extent: 1, generation: 2 };
    let verify_other = JobKind::ExtentVerify { extent: 2 };
    assert!(close.depends_on(&w(7, 1), es));
    assert!(!close.depends_on(&w(8, 1), es));
    assert!(w(4, 1).depends_on(&close, es));
    assert!(close.depends_on(&flush(1), es));
    assert!(reopen.depends_on(&close, es));
    assert!(!reopen.depends_on(&w(4, 1), es));
    assert!(reopen.depends_on(&flush(1), es));
    assert!(verify_other.depends_on(&flush(1), es));
    assert!(flush(1).depends_on(&reopen, es));
    assert!(!verify_other.depends_on(&close, es));
    assert!(w(u64::MAX, u64::MAX).depends_on(&read(u64::MAX, 1), es));
    assert_eq!(close.target(), Some(1));
    assert_eq!(flush(1).target(), None);
    assert!(reopen.continues_repair());
    assert!(!close.continues_repair());
    assert!(flush(1).is_flush());
}

#[test]
fn repair_holds_back_what_reaches_its_extent() {
    let mut region = Region::create(
        RegionDefinition { block_size: 2, extent_size: 4, extent_count: 3, uuid: 1, encrypted: false },
        false,
        None,
    )
    .unwrap();
    assert!(!read(4, 1).is_held(region.repair(), 4));
    assert_eq!(region.close_extent(1), Ok(()));
    let repair = region.repair();
    assert!(read(4, 1).is_held(repair, 4));
    assert!(read(3, 2).is_held(repair, 4));
    assert!(!read(3, 1).is_held(repair, 4));
    assert!(!read(8, 1).is_held(repair, 4));
    assert!(!read(5, 0).is_held(repair, 4));
    assert!(flush(1).is_held(repair, 4));
    assert!(JobKind::Flush { flush_number: 1, generation_number: 0, extent_limit: Some(2) }.is_held(repair, 4));
    assert!(!JobKind::Flush { flush_number: 1, generation_number: 0, extent_limit: Some(1) }.is_held(repair, 4));
    assert!(JobKind::ExtentClose { extent: 2 }.is_held(repair, 4));
    assert!(!JobKind::ExtentRepair { extent: 1, source: RepairSource::Local, content: None }.is_held(repair, 4));
    assert!(!JobKind::ExtentVerify { extent: 1 }.is_held(repair, 4));
}

#[test]
fn dispatcher_hands_out_the_kind_of_a_job() {
    let mut w = Work::new(2);
    let a = w.submit(write(3, 1, 8)).unwrap();
    match w.kind(a) {
        Some(JobKind::Write { start, count, data }) => {
            assert_eq!((*start, *count), (3, 1));
            assert_eq!(data, &vec![8u8, 8]);
        }
        other => panic!("unexpected {:?}", other),
    }
    assert!(w.kind(5).is_none());
    assert!(JobState::Complete.is_finished());
    assert!(JobState::Error { cause: Error::IoFailure }.is_finished());
    assert!(!JobState::InProgress.is_finished());
    assert!(JobState::InProgress.is_begun());
    assert!(!JobState::Ready.is_begun());
}

#[test]
fn engine_retires_acknowledged_jobs_and_gives_up_the_rest_on_teardown() {
    let mut d = engine();
    let a = d.submit(write(0, 1, 1)).unwrap();
    let b = d.submit(read(0, 1)).unwrap();
    let c = d.submit(read(4, 1)).unwrap();
    assert_eq!(d.next_job(false), Some(a));
    assert!(!d.acknowledge(a));
    assert!(run(&mut d, a).is_ok());
    assert!(!d.retire(a));
    assert!(d.acknowledge(a));
    assert!(!d.retire(a));
    assert_eq!(d.next_job(false), Some(b));
    assert!(d.begin(b));
    assert_eq!(d.teardown(), 1);
    assert_eq!(d.work().state(c), None);
    assert_eq!(d.work().state(b), Some(JobState::InProgress));
    assert!(d.complete(b, Fault::Clear).unwrap().result.is_ok());
    assert!(d.retire(a));
    assert!(d.acknowledge(b));
    assert!(d.retire(b));
    assert_eq!(d.work().len(), 0);
    assert_eq!(d.submit(read(0, 1)), Some(3));
    assert_eq!(d.region().read(0, 1).unwrap(), vec![1, 1]);
}

#[test]
fn read_only_engine_refuses_writes_and_repairs() {
    let def = RegionDefinition { block_size: 2, extent_size: 2, extent_count: 2, uuid: 1, encrypted: false };
    let image = RegionImage { def, extents: vec![Extent::new(&def), Extent::new(&def)], repair_record: None };
    let region = Region::open(image, &RegionOptions::new(), true, true).unwrap();
    let mut d = Downstairs::new(region, false, false);
    let w = d.submit(write(0, 1, 1)).unwrap();
    let c = d.submit(JobKind::ExtentClose { extent: 1 }).unwrap();
    let r = d.submit(read(0, 4)).unwrap();
    assert_eq!(d.next_job(false), Some(w));
    assert_eq!(run(&mut d, w).err(), Some(Error::ReadOnlyRegion));
    assert_eq!(d.next_job(false), Some(c));
    assert_eq!(run(&mut d, c).err(), Some(Error::ReadOnlyRegion));
    assert_eq!(d.next_job(false), Some(r));
    match run(&mut d, r) {
        Ok(Reply::Read { data }) => assert_eq!(data, vec![0u8; 8]),
        other => panic!("unexpected {:?}", other),
    }
    assert_eq!(d.region().extent_state(1), ExtentState::Open);
    assert!(!d.region().extent_meta(0).unwrap().dirty);
}

fn closed_engine(extent: u32) -> Downstairs {
    let mut d = engine();
    let close = d.submit(JobKind::ExtentClose { extent }).unwrap();
    assert_eq!(d.next_job(false), Some(close));
    assert!(run(&mut d, close).is_ok());
    assert!(d.acknowledge(close));
    assert!(d.retire(close));
    d
}

#[test]
fn repair_step_waits_for_a_flush_that_the_repair_leaves_free() {
    let mut d = closed_engine(1);
    let below = d
        .submit(JobKind::Flush { flush_number: 1, generation_number: 0, extent_limit: Some(1) })
        .unwrap();
    let repair = d
        .submit(JobKind::ExtentRepair { extent: 1, source: RepairSource::Local, content: None })
        .unwrap();
    assert_eq!(d.work().dependencies(repair).unwrap(), vec![below]);
    assert_eq!(d.next_job(false), Some(below));
    assert_eq!(d.work().state(repair), Some(JobState::New));
    assert!(!d.begin(repair));
    assert!(d.complete(repair, Fault::Clear).is_none());
    assert!(d.begin(below));
    assert_eq!(d.next_job(false), None);
    assert_eq!(d.work().state(repair), Some(JobState::New));
    assert!(d.complete(below, Fault::Clear).unwrap().result.is_ok());
    assert_eq!(d.next_job(false), Some(repair));
    assert_eq!(d.work().passed(repair).unwrap(), Vec::<u64>::new());
    assert!(matches!(run(&mut d, repair), Ok(Reply::Repaired)));
}

#[test]
fn repair_step_passes_only_flushes_that_its_repair_keeps_back() {
    let mut d = closed_engine(1);
    let free = d
        .submit(JobKind::Flush { flush_number: 1, generation_number: 0, extent_limit: Some(1) })
        .unwrap();
    let held_write = d.submit(write(2, 1, 7)).unwrap();
    let behind = d
        .submit(JobKind::Flush { flush_number: 2, generation_number: 0, extent_limit: Some(1) })
        .unwrap();
    let covering = d.submit(flush(3)).unwrap();
    let repair = d
        .submit(JobKind::ExtentRepair { extent: 1, source: RepairSource::Local, content: None })
        .unwrap();
    let other = d.submit(JobKind::ExtentReopen { extent: 2, generation: 1 }).unwrap();
    assert_eq!(d.work().dependencies(repair).unwrap(), vec![free, behind, covering]);
    assert_eq!(d.next_job(false), Some(free));
    assert_eq!(d.work().state(repair), Some(JobState::New));
    assert!(run(&mut d, free).is_ok());
    assert_eq!(d.next_job(false), Some(repair));
    assert_eq!(d.work().passed(repair).unwrap(), vec![behind, covering]);
    assert_eq!(d.work().state(other), Some(JobState::New));
    assert_eq!(d.work().state(held_write), Some(JobState::Ready));
    assert_eq!(d.work().state(behind), Some(JobState::New));
    assert!(matches!(run(&mut d, repair), Ok(Reply::Repaired)));
    assert_eq!(d.next_job(false), None);
    assert_eq!(d.work().state(other), Some(JobState::New));
}

#[test]
fn without_a_repair_a_repair_step_waits_for_every_flush() {
    let mut d = engine();
    let w = d.submit(write(2, 1, 7)).unwrap();
    let f = d.submit(flush(1)).unwrap();
    let repair = d
        .submit(JobKind::ExtentRepair { extent: 1, source: RepairSource::Local, content: None })
        .unwrap();
    assert_eq!(d.work().dependencies(repair).unwrap(), vec![f]);
    assert_eq!(d.next_job(false), Some(w));
    assert!(run(&mut d, w).is_ok());
    assert_eq!(d.next_job(false), Some(f));
    assert_eq!(d.work().state(repair), Some(JobState::New));
    assert!(run(&mut d, f).is_ok());
    assert_eq!(d.next_job(false), Some(repair));
    assert_eq!(d.work().passed(repair).unwrap(), Vec::<u64>::new());
    assert_eq!(run(&mut d, repair).err(), Some(Error::RepairFailed));
}
