use downstairs::definition::{RegionDefinition, RegionOptions};
use downstairs::error::Error;
use downstairs::extent::Extent;
use downstairs::region::{Region, RegionImage};
use downstairs::repair::{ExtentState, RepairSource, RepairStep, MAX_REPAIR_ATTEMPTS};

fn tiny_def() -> RegionDefinition {
    RegionDefinition { block_size: 2, extent_size: 2, extent_count: 3, uuid: 1, encrypted: false }
}

fn tiny_region() -> Region {
    Region::create(tiny_def(), false, None).unwrap()
}

#[test]
fn repair_runs_through_its_states_and_raises_the_generation() {
    let mut region = tiny_region();
    assert_eq!(region.write(0, 6, &vec![1u8; 12], false), Ok(()));
    assert!(region.flush(7, 0, None).is_ok());
    assert_eq!(region.extent_state(1), ExtentState::Open);

    assert_eq!(region.close_extent(1), Ok(()));
    assert_eq!(region.extent_state(1), ExtentState::Closed);
    assert_eq!(region.extent_state(0), ExtentState::Open);
    let before = region.extent_meta(1).unwrap().generation;

    let content = vec![9u8, 8, 7, 6];
    assert_eq!(region.repair_extent(1, RepairSource::Peer, Some(&content)), Ok(()));
    assert_eq!(region.extent_state(1), ExtentState::Repairing);
    assert_eq!(region.repair().unwrap().source, Some(RepairSource::Peer));
    assert!(region.extent_meta(1).unwrap().dirty);
    assert_eq!(region.read(2, 2).unwrap(), content);

    assert_eq!(region.reopen_extent(1, before + 1), Ok(()));
    assert_eq!(region.extent_state(1), ExtentState::Reopening);
    assert_eq!(region.extent_meta(1).unwrap().generation, before + 1);

    let steps = region.flush_repaired(1).unwrap();
    assert_eq!(steps.len(), 9);
    assert_eq!(region.extent_state(1), ExtentState::Verifying);
    assert!(!region.extent_meta(1).unwrap().dirty);
    assert_eq!(region.extent_meta(1).unwrap().flush_number, 7);
    assert_eq!(region.extent_meta(1).unwrap().flushed_generation, before + 1);

    assert_eq!(region.finish_repair(1), Ok(()));
    assert_eq!(region.extent_state(1), ExtentState::Open);
    assert!(region.repair().is_none());
    assert!(region.extent_meta(1).unwrap().generation > before);
    assert!(!region.extent_meta(1).unwrap().dirty);
    assert_eq!(region.read(0, 6).unwrap(), vec![1, 1, 1, 1, 9, 8, 7, 6, 1, 1, 1, 1]);
    assert_eq!(region.extent_meta(0).unwrap().generation, 0);
}

#[test]
fn only_one_extent_may_be_offline() {
    let mut region = tiny_region();
    assert_eq!(region.close_extent(3), Err(Error::OutOfBounds));
    assert_eq!(region.close_extent(0), Ok(()));
    assert_eq!(region.close_extent(1), Err(Error::RepairFailed));
    assert_eq!(region.close_extent(0), Err(Error::RepairFailed));
    assert_eq!(region.repair().unwrap().extent, 0);
}

#[test]
fn repair_steps_out_of_turn_are_refused_and_change_nothing() {
    let mut region = tiny_region();
    assert_eq!(region.repair_extent(0, RepairSource::Local, None), Err(Error::RepairFailed));
    assert_eq!(region.reopen_extent(0, 5), Err(Error::RepairFailed));
    assert_eq!(region.flush_repaired(0).err(), Some(Error::RepairFailed));
    assert_eq!(region.finish_repair(0), Err(Error::RepairFailed));
    assert!(region.repair().is_none());
    assert_eq!(region.close_extent(2), Ok(()));
    assert_eq!(region.reopen_extent(2, 5), Err(Error::RepairFailed));
    assert_eq!(region.repair_extent(1, RepairSource::Local, None), Err(Error::RepairFailed));
    assert_eq!(region.repair_extent(9, RepairSource::Local, None), Err(Error::OutOfBounds));
    let state = region.repair().unwrap();
    assert_eq!(state.step, RepairStep::Closed);
    assert_eq!(state.attempts, 0);
}

#[test]
fn unavailable_source_restarts_the_repair_until_the_attempts_run_out() {
    let mut region = tiny_region();
    assert_eq!(region.close_extent(0), Ok(()));
    for n in 1..=MAX_REPAIR_ATTEMPTS {
        assert_eq!(region.repair_extent(0, RepairSource::Peer, None), Err(Error::RepairFailed));
        let state = region.repair().unwrap();
        assert_eq!(state.step, RepairStep::Closed);
        assert_eq!(state.attempts, n);
        assert_eq!(state.is_exhausted(), n >= MAX_REPAIR_ATTEMPTS);
    }
    let good = vec![5u8; 4];
    assert_eq!(region.repair_extent(0, RepairSource::Peer, Some(&good)), Err(Error::RepairFailed));
    assert_eq!(region.repair().unwrap().attempts, MAX_REPAIR_ATTEMPTS);
    assert_eq!(region.read(0, 2).unwrap(), vec![0u8; 4]);
}

#[test]
fn peer_content_of_the_wrong_length_counts_as_a_failure() {
    let mut region = tiny_region();
    assert_eq!(region.close_extent(0), Ok(()));
    assert_eq!(region.repair_extent(0, RepairSource::Peer, Some(&vec![5u8; 3])), Err(Error::RepairFailed));
    assert_eq!(region.repair().unwrap().attempts, 1);
    assert_eq!(region.repair_extent(0, RepairSource::Peer, Some(&vec![5u8; 4])), Ok(()));
    assert_eq!(region.repair().unwrap().attempts, 1);
    assert_eq!(region.read(0, 2).unwrap(), vec![5u8; 4]);
}

#[test]
fn generation_that_does_not_rise_restarts_the_repair() {
    let mut region = tiny_region();
    assert_eq!(region.close_extent(2), Ok(()));
    assert_eq!(region.repair_extent(2, RepairSource::Local, None), Ok(()));
    assert_eq!(region.reopen_extent(2, 0), Err(Error::RepairFailed));
    let state = region.repair().unwrap();
    assert_eq!(state.step, RepairStep::Closed);
    assert_eq!(state.attempts, 1);
    assert_eq!(region.extent_meta(2).unwrap().generation, 0);
    assert_eq!(region.repair_extent(2, RepairSource::Local, None), Ok(()));
    assert_eq!(region.reopen_extent(2, 1), Ok(()));
    assert_eq!(region.extent_meta(2).unwrap().generation, 1);
}

#[test]
fn write_after_the_final_flush_fails_the_last_check() {
    let mut region = tiny_region();
    assert_eq!(region.close_extent(1), Ok(()));
    assert_eq!(region.repair_extent(1, RepairSource::Local, None), Ok(()));
    assert_eq!(region.reopen_extent(1, 4), Ok(()));
    assert!(region.flush_repaired(1).is_ok());
    assert_eq!(region.write(2, 1, &vec![3u8; 2], false), Ok(()));
    assert_eq!(region.finish_repair(1), Err(Error::RepairFailed));
    let state = region.repair().unwrap();
    assert_eq!(state.step, RepairStep::Closed);
    assert_eq!(state.attempts, 1);
    assert_eq!(state.prior_generation, 0);
}

#[test]
fn read_only_region_refuses_every_repair_step() {
    let def = tiny_def();
    let mut extents = Vec::new();
    for _ in 0..3 {
        extents.push(Extent::new(&def));
    }
    let image = RegionImage { def, extents, repair_record: Some(1) };
    let mut region = Region::open(image, &RegionOptions::new(), true, true).unwrap();
    assert_eq!(region.extent_state(1), ExtentState::Closed);
    assert_eq!(region.close_extent(0), Err(Error::ReadOnlyRegion));
    assert_eq!(region.repair_extent(1, RepairSource::Local, None), Err(Error::ReadOnlyRegion));
    assert_eq!(region.reopen_extent(1, 3), Err(Error::ReadOnlyRegion));
    assert_eq!(region.flush_repaired(1).err(), Some(Error::ReadOnlyRegion));
    assert_eq!(region.finish_repair(1), Err(Error::ReadOnlyRegion));
    assert_eq!(region.extent_state(1), ExtentState::Closed);
}

#[test]
fn repair_after_limited_flushes_leaves_numbers_that_open_accepts() {
    let mut region = tiny_region();
    assert!(region.flush(2, 0, None).is_ok());
    assert_eq!(region.close_extent(1), Ok(()));
    assert!(region.flush(5, 0, Some(1)).is_ok());
    assert_eq!(region.repair_extent(1, RepairSource::Local, None), Ok(()));
    assert_eq!(region.reopen_extent(1, 1), Ok(()));
    assert!(region.flush_repaired(1).is_ok());
    assert_eq!(region.finish_repair(1), Ok(()));
    let mut extents = Vec::new();
    for e in 0..3 {
        let meta = region.extent_meta(e).unwrap();
        assert_eq!(meta.flush_number, 5);
        let mut extent = Extent::new(&tiny_def());
        extent.generation = meta.generation;
        extent.flush_number = meta.flush_number;
        extents.push(extent);
    }
    let image = RegionImage { def: tiny_def(), extents, repair_record: None };
    assert!(Region::open(image, &RegionOptions::new(), false, true).is_ok());
}
