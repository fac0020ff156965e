use downstairs::definition::{RegionDefinition, RegionOptions};
use downstairs::durability::FlushStep;
use downstairs::error::Error;
use downstairs::extent::Extent;
use downstairs::region::{Region, RegionImage};

fn default_def() -> RegionDefinition {
    RegionOptions::new().to_definition().unwrap()
}

fn small_def() -> RegionDefinition {
    RegionDefinition { block_size: 4, extent_size: 2, extent_count: 3, uuid: 7, encrypted: false }
}

fn pattern(len: usize, seed: u8) -> Vec<u8> {
    let mut v = Vec::with_capacity(len);
    for i in 0..len {
        v.push(seed.wrapping_add((i % 251) as u8));
    }
    v
}

#[test]
fn default_options_give_the_default_definition() {
    let def = default_def();
    assert_eq!(def.block_size, 512);
    assert_eq!(def.extent_size, 100);
    assert_eq!(def.extent_count, 15);
    assert_eq!(def.uuid, 0);
    assert!(!def.encrypted);
    assert_eq!(def.block_count(), 1500);
    assert_eq!(def.extent_len(), 51200);
}

#[test]
fn import_round_trip_is_byte_identical() {
    let def = default_def();
    let n = 37usize;
    let data = pattern(n * 512, 3);
    let region = Region::create(def, false, Some(&data)).unwrap();
    assert_eq!(region.read(0, n as u64).unwrap(), data);
    for e in 0..15 {
        let meta = region.extent_meta(e).unwrap();
        assert!(!meta.dirty);
        assert_eq!(meta.flush_number, 1);
        assert_eq!(meta.flushed_generation, 0);
        assert_eq!(meta.generation, 0);
    }
    assert_eq!(region.read(n as u64, 1).unwrap(), vec![0u8; 512]);
}

#[test]
fn create_refuses_an_existing_region_first() {
    let bad = RegionDefinition { block_size: 0, ..small_def() };
    assert_eq!(Region::create(bad, true, None).err(), Some(Error::AlreadyExists));
    assert_eq!(Region::create(bad, false, None).err(), Some(Error::InvalidDefinition));
    assert_eq!(Region::create(small_def(), true, None).err(), Some(Error::AlreadyExists));
}

#[test]
fn create_refuses_an_import_that_does_not_fit() {
    let def = small_def();
    assert_eq!(Region::create(def, false, Some(&vec![1u8; 25])).err(), Some(Error::InvalidDefinition));
    assert_eq!(Region::create(def, false, Some(&vec![1u8; 28])).err(), Some(Error::InvalidDefinition));
    assert!(Region::create(def, false, Some(&vec![1u8; 24])).is_ok());
    assert!(Region::create(def, false, Some(&Vec::new())).is_ok());
}

#[test]
fn import_fills_the_last_block_with_zeros() {
    let def = small_def();
    let region = Region::create(def, false, Some(&vec![1u8; 5])).unwrap();
    assert_eq!(region.read(0, 3).unwrap(), vec![1, 1, 1, 1, 1, 0, 0, 0, 0, 0, 0, 0]);
    assert_eq!(region.dirty_bits(0), Some(vec![false, false]));
    assert_eq!(region.extent_meta(2).unwrap().flush_number, 1);
    assert_eq!(region.dirty_bits(3), None);
}

#[test]
fn write_marks_blocks_dirty_and_flush_clears_them() {
    let mut region = Region::create(small_def(), false, None).unwrap();
    let data = pattern(12, 9);
    assert_eq!(region.write(1, 3, &data, false), Ok(()));
    assert!(region.extent_meta(0).unwrap().dirty);
    assert!(region.extent_meta(1).unwrap().dirty);
    assert!(!region.extent_meta(2).unwrap().dirty);
    assert_eq!(region.dirty_bits(0), Some(vec![false, true]));
    assert_eq!(region.dirty_bits(1), Some(vec![true, true]));
    assert_eq!(region.dirty_bits(2), Some(vec![false, false]));
    assert_eq!(region.read(1, 3).unwrap(), data);
    assert_eq!(region.read(0, 1).unwrap(), vec![0u8; 4]);
    let plan = region.flush(5, 2, None).unwrap();
    assert_eq!(plan.len(), 9);
    assert_eq!(plan[0], FlushStep::SyncData { extent: 0 });
    assert_eq!(plan[3], FlushStep::WriteMeta { extent: 0, flush_number: 5, generation: 2 });
    assert_eq!(plan[8], FlushStep::SyncMeta { extent: 2 });
    for e in 0..3 {
        let meta = region.extent_meta(e).unwrap();
        assert!(!meta.dirty);
        assert_eq!(meta.flush_number, 5);
        assert_eq!(meta.flushed_generation, 2);
        assert_eq!(meta.generation, 0);
    }
    assert_eq!(region.read(1, 3).unwrap(), data);
}

#[test]
fn flush_with_a_limit_covers_only_the_extents_below_it() {
    let mut region = Region::create(small_def(), false, None).unwrap();
    assert_eq!(region.write(0, 6, &pattern(24, 1), false), Ok(()));
    let plan = region.flush(3, 0, Some(1)).unwrap();
    assert_eq!(
        plan,
        vec![
            FlushStep::SyncData { extent: 0 },
            FlushStep::WriteMeta { extent: 0, flush_number: 3, generation: 0 },
            FlushStep::SyncMeta { extent: 0 },
        ]
    );
    assert!(!region.extent_meta(0).unwrap().dirty);
    assert!(region.extent_meta(1).unwrap().dirty);
    assert!(region.extent_meta(2).unwrap().dirty);
    assert_eq!(region.extent_meta(0).unwrap().flush_number, 3);
    assert_eq!(region.extent_meta(1).unwrap().flush_number, 0);
    assert_eq!(region.max_flush_number(), 3);
    let all = region.metadata();
    assert_eq!(all.len(), 3);
    for e in 0..3 {
        assert_eq!(Some(all[e as usize]), region.extent_meta(e));
    }
}

#[test]
fn flush_refuses_a_lower_flush_number() {
    let mut region = Region::create(small_def(), false, None).unwrap();
    assert!(region.flush(4, 0, None).is_ok());
    assert_eq!(region.flush(3, 0, None).err(), Some(Error::CorruptMetadata));
    assert_eq!(region.extent_meta(0).unwrap().flush_number, 4);
    assert!(region.flush(4, 0, None).is_ok());
}

#[test]
fn out_of_bounds_requests_are_refused() {
    let mut region = Region::create(small_def(), false, None).unwrap();
    assert_eq!(region.read(6, 1).err(), Some(Error::OutOfBounds));
    assert_eq!(region.read(5, 2).err(), Some(Error::OutOfBounds));
    assert_eq!(region.read(u64::MAX, 2).err(), Some(Error::OutOfBounds));
    assert_eq!(region.read(6, 0).unwrap(), Vec::<u8>::new());
    assert_eq!(region.write(5, 2, &vec![0u8; 8], false), Err(Error::OutOfBounds));
    assert_eq!(region.write(0, 2, &vec![0u8; 7], false), Err(Error::OutOfBounds));
    assert_eq!(region.write(0, u64::MAX, &vec![0u8; 8], false), Err(Error::OutOfBounds));
    assert_eq!(region.locate(5), Some((2, 1)));
    assert_eq!(region.locate(6), None);
}

fn image_of(def: RegionDefinition, numbers: &[(u64, u64)]) -> RegionImage {
    let mut extents = Vec::new();
    for (generation, flush_number) in numbers {
        let mut e = Extent::new(&def);
        e.generation = *generation;
        e.flush_number = *flush_number;
        extents.push(e);
    }
    RegionImage { def, extents, repair_record: None }
}

#[test]
fn read_only_region_refuses_writes_and_stays_as_it_was() {
    let def = small_def();
    let mut image = image_of(def, &[(1, 2), (1, 2), (1, 2)]);
    image.extents[1].data[3] = 9;
    let mut region = Region::open(image, &RegionOptions::new(), true, true).unwrap();
    assert!(region.is_read_only());
    let before: Vec<_> = (0..3).map(|e| region.extent_meta(e).unwrap()).collect();
    let bytes = region.read(0, 6).unwrap();
    assert_eq!(region.write(0, 1, &vec![5u8; 4], false), Err(Error::ReadOnlyRegion));
    assert_eq!(region.write(9, 1, &vec![5u8; 4], false), Err(Error::ReadOnlyRegion));
    assert_eq!(region.flush(9, 9, None).err(), Some(Error::ReadOnlyRegion));
    let after: Vec<_> = (0..3).map(|e| region.extent_meta(e).unwrap()).collect();
    assert_eq!(before, after);
    assert_eq!(region.read(0, 6).unwrap(), bytes);
    assert_eq!(bytes[11], 9);
}

#[test]
fn repair_write_passes_the_read_only_gate() {
    let def = small_def();
    let image = image_of(def, &[(0, 0), (0, 0), (0, 0)]);
    let mut region = Region::open(image, &RegionOptions::new(), true, false).unwrap();
    assert_eq!(region.write(2, 1, &vec![8u8; 4], true), Ok(()));
    assert_eq!(region.read(2, 1).unwrap(), vec![8u8; 4]);
    assert!(region.extent_meta(1).unwrap().dirty);
}

#[test]
fn open_accepts_consistent_numbers() {
    let def = small_def();
    assert!(Region::open(image_of(def, &[(1, 4), (1, 4), (1, 4)]), &RegionOptions::new(), false, true).is_ok());
    assert!(Region::open(image_of(def, &[(1, 4), (2, 4), (3, 9)]), &RegionOptions::new(), false, true).is_ok());
}

#[test]
fn open_refuses_a_flush_number_regression() {
    let def = small_def();
    let r = Region::open(image_of(def, &[(1, 4), (2, 3), (1, 4)]), &RegionOptions::new(), false, true);
    assert_eq!(r.err(), Some(Error::CorruptMetadata));
    let r = Region::open(image_of(def, &[(1, 4), (1, 5), (1, 4)]), &RegionOptions::new(), false, true);
    assert_eq!(r.err(), Some(Error::CorruptMetadata));
}

#[test]
fn open_tolerates_differing_numbers_while_a_repair_is_on_record() {
    let def = small_def();
    let mut image = image_of(def, &[(1, 5), (1, 4), (1, 4)]);
    image.repair_record = Some(1);
    let region = Region::open(image, &RegionOptions::new(), false, true).unwrap();
    let repair = region.repair().unwrap();
    assert_eq!(repair.extent, 1);
    assert_eq!(repair.prior_generation, 1);
    assert_eq!(repair.attempts, 0);
    let mut image = image_of(def, &[(1, 5), (1, 4), (1, 4)]);
    image.repair_record = Some(3);
    assert_eq!(Region::open(image, &RegionOptions::new(), false, true).err(), Some(Error::CorruptMetadata));
}

#[test]
fn open_checks_the_definition_before_the_metadata() {
    let def = small_def();
    let mut image = image_of(def, &[(1, 4), (2, 3), (1, 4)]);
    image.def.block_size = 0;
    assert_eq!(Region::open(image, &RegionOptions::new(), false, true).err(), Some(Error::InvalidDefinition));
    let image = image_of(def, &[(1, 4), (2, 3), (1, 4)]);
    let options = RegionOptions { block_size: Some(512), ..RegionOptions::new() };
    assert_eq!(Region::open(image, &options, false, true).err(), Some(Error::DefinitionMismatch));
    let image = image_of(def, &[(1, 4), (1, 4), (1, 4)]);
    let options = RegionOptions { block_size: Some(4), uuid: Some(7), ..RegionOptions::new() };
    assert!(Region::open(image, &options, false, true).is_ok());
}

#[test]
fn open_checks_sizes_only_when_asked() {
    let def = small_def();
    let mut image = image_of(def, &[(0, 0), (0, 0), (0, 0)]);
    image.extents[0].data = vec![1, 2, 3];
    image.extents[2].data = vec![7u8; 11];
    assert_eq!(
        Region::open(image, &RegionOptions::new(), false, true).err(),
        Some(Error::CorruptMetadata)
    );
    let mut image = image_of(def, &[(0, 0), (0, 0), (0, 0)]);
    image.extents[0].data = vec![1, 2, 3];
    image.extents[2].data = vec![7u8; 11];
    let region = Region::open(image, &RegionOptions::new(), false, false).unwrap();
    assert_eq!(region.read(0, 2).unwrap(), vec![1, 2, 3, 0, 0, 0, 0, 0]);
    assert_eq!(region.read(4, 2).unwrap(), vec![7u8; 8]);
}

#[test]
fn open_refuses_malformed_dirty_bits() {
    let def = small_def();
    let mut image = image_of(def, &[(0, 0), (0, 0), (0, 0)]);
    image.extents[1].dirty_blocks = vec![false];
    assert_eq!(Region::open(image, &RegionOptions::new(), false, false).err(), Some(Error::CorruptMetadata));
    let mut image = image_of(def, &[(0, 0), (0, 0), (0, 0)]);
    image.extents[1].dirty = true;
    assert_eq!(Region::open(image, &RegionOptions::new(), false, false).err(), Some(Error::CorruptMetadata));
    let mut image = image_of(def, &[(0, 0), (0, 0), (0, 0)]);
    image.extents[1].dirty_blocks[1] = true;
    image.extents[1].dirty = true;
    let region = Region::open(image, &RegionOptions::new(), false, false).unwrap();
    assert!(region.extent_meta(1).unwrap().dirty);
    let mut image = image_of(def, &[(0, 0), (0, 0)]);
    image.def = def;
    assert_eq!(Region::open(image, &RegionOptions::new(), false, false).err(), Some(Error::CorruptMetadata));
}

#[test]
fn region_grows_and_never_shrinks() {
    let mut region = Region::create(small_def(), false, None).unwrap();
    assert_eq!(region.write(4, 2, &pattern(8, 5), false), Ok(()));
    assert!(region.flush(6, 1, None).is_ok());
    assert_eq!(region.extend(2), Err(Error::InvalidDefinition));
    assert_eq!(region.extent_count(), 3);
    assert_eq!(region.extend(3), Ok(()));
    assert_eq!(region.extent_count(), 3);
    assert_eq!(region.extend(5), Ok(()));
    assert_eq!(region.extent_count(), 5);
    assert_eq!(region.def().extent_count, 5);
    assert_eq!(region.read(4, 2).unwrap(), pattern(8, 5));
    assert_eq!(region.read(6, 4).unwrap(), vec![0u8; 16]);
    for e in 3..5 {
        let meta = region.extent_meta(e).unwrap();
        assert!(!meta.dirty);
        assert_eq!(meta.generation, 0);
        assert_eq!(meta.flush_number, 6);
        assert_eq!(meta.flushed_generation, 1);
    }
    assert_eq!(region.write(9, 1, &vec![3u8; 4], false), Ok(()));
    assert_eq!(region.read(9, 1).unwrap(), vec![3u8; 4]);
    assert_eq!(region.read(10, 1).err(), Some(Error::OutOfBounds));
}

#[test]
fn region_keeps_its_shape_when_read_only_or_under_repair() {
    let def = small_def();
    let image = image_of(def, &[(0, 0), (0, 0), (0, 0)]);
    let mut region = Region::open(image, &RegionOptions::new(), true, true).unwrap();
    assert_eq!(region.extend(4), Err(Error::ReadOnlyRegion));
    let mut region = Region::create(def, false, None).unwrap();
    assert_eq!(region.close_extent(0), Ok(()));
    assert_eq!(region.extend(4), Err(Error::RepairFailed));
    assert_eq!(region.extent_count(), 3);
}

#[test]
fn definitions_are_checked() {
    let good = small_def();
    assert!(good.is_valid());
    assert!(!RegionDefinition { block_size: 0, ..good }.is_valid());
    assert!(!RegionDefinition { extent_size: 0, ..good }.is_valid());
    assert!(!RegionDefinition { extent_size: u64::MAX, block_size: 2, ..good }.is_valid());
    assert!(!RegionDefinition { extent_size: 1 << 40, block_size: 1, ..good }.is_valid());
    assert!(RegionDefinition { extent_count: 0, ..good }.is_valid());
    let options = RegionOptions { block_size: Some(0), ..RegionOptions::new() };
    assert_eq!(options.to_definition(), Err(Error::InvalidDefinition));
    let options = RegionOptions {
        block_size: Some(4096),
        extent_size: Some(8),
        extent_count: Some(2),
        uuid: Some(99),
        encrypted: Some(true),
    };
    let def = options.to_definition().unwrap();
    assert_eq!(
        def,
        RegionDefinition { block_size: 4096, extent_size: 8, extent_count: 2, uuid: 99, encrypted: true }
    );
    assert!(options.accepts(&def));
    assert!(!options.accepts(&RegionDefinition { encrypted: false, ..def }));
    assert!(!options.accepts(&RegionDefinition { extent_count: 3, ..def }));
    assert!(RegionOptions::new().accepts(&def));
}

#[test]
fn empty_region_serves_nothing() {
    let def = RegionDefinition { extent_count: 0, ..small_def() };
    let mut region = Region::create(def, false, Some(&Vec::new())).unwrap();
    assert_eq!(region.read(0, 0).unwrap(), Vec::<u8>::new());
    assert_eq!(region.read(0, 1).err(), Some(Error::OutOfBounds));
    assert_eq!(region.flush(1, 0, None).unwrap(), Vec::<FlushStep>::new());
    assert_eq!(region.max_flush_number(), 0);
    assert_eq!(region.extent_meta(0), None);
    assert_eq!(region.locate(0), None);
}

#[test]
fn later_writes_win_and_flush_keeps_the_data() {
    let mut region = Region::create(small_def(), false, None).unwrap();
    assert_eq!(region.write(0, 3, &vec![1u8; 12], false), Ok(()));
    assert_eq!(region.write(2, 2, &vec![2u8; 8], false), Ok(()));
    assert_eq!(region.write(7, 1, &vec![9u8; 4], false), Err(Error::OutOfBounds));
    assert_eq!(region.write(1, 1, &vec![3u8; 4], false), Ok(()));
    assert!(region.flush(1, 0, None).is_ok());
    let expect: Vec<u8> = [[1u8; 4], [3; 4], [2; 4], [2; 4], [0; 4], [0; 4]].concat();
    assert_eq!(region.read(0, 6).unwrap(), expect);
    for e in 0..3 {
        assert_eq!(region.dirty_bits(e), Some(vec![false, false]));
    }
}

#[test]
fn full_region_import_survives_another_flush() {
    let def = default_def();
    let data = pattern(1500 * 512, 17);
    let mut region = Region::create(def, false, Some(&data)).unwrap();
    assert!(region.flush(2, 0, None).is_ok());
    assert_eq!(region.read(0, 1500).unwrap(), data);
    assert_eq!(region.read(1499, 1).unwrap(), data[1499 * 512..].to_vec());
    assert_eq!(region.max_flush_number(), 2);
    assert!(region.metadata().iter().all(|m| !m.dirty && m.flush_number == 2));
    let too_long = pattern(1500 * 512 + 1, 1);
    assert_eq!(Region::create(def, false, Some(&too_long)).err(), Some(Error::InvalidDefinition));
}
