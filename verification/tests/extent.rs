use downstairs::definition::RegionDefinition;
use downstairs::durability::{plan_flush, FlushStep};
use downstairs::extent::{has_set_bit, Extent};

fn def() -> RegionDefinition {
    RegionDefinition { block_size: 3, extent_size: 4, extent_count: 1, uuid: 0, encrypted: true }
}

#[test]
fn fresh_extent_is_zeroed_and_clean() {
    let e = Extent::new(&def());
    assert_eq!(e.data, vec![0u8; 12]);
    assert_eq!(e.dirty_blocks, vec![false; 4]);
    assert!(!e.dirty);
    assert_eq!((e.generation, e.flush_number, e.flushed_generation), (0, 0, 0));
    let m = e.meta();
    assert_eq!((m.generation, m.flush_number, m.flushed_generation, m.dirty), (0, 0, 0, false));
}

#[test]
fn block_write_touches_one_block_only() {
    let def = def();
    let mut e = Extent::new(&def);
    let src = vec![1u8, 2, 3, 4, 5, 6, 7];
    e.write_block(&def, 2, &src, 1);
    assert_eq!(e.data, vec![0, 0, 0, 0, 0, 0, 2, 3, 4, 0, 0, 0]);
    assert_eq!(e.dirty_blocks, vec![false, false, true, false]);
    assert!(e.dirty);
    let mut out = vec![9u8];
    e.read_block(&def, 2, &mut out);
    e.read_block(&def, 0, &mut out);
    assert_eq!(out, vec![9, 2, 3, 4, 0, 0, 0]);
}

#[test]
fn extent_flush_clears_bits_and_keeps_data() {
    let def = def();
    let mut e = Extent::new(&def);
    e.write_block(&def, 0, &vec![7u8; 3], 0);
    e.write_block(&def, 3, &vec![8u8; 3], 0);
    e.flush(&def, 11, 4);
    assert_eq!(e.dirty_blocks, vec![false; 4]);
    assert!(!e.dirty);
    assert_eq!((e.generation, e.flush_number, e.flushed_generation), (0, 11, 4));
    assert_eq!(e.data, vec![7, 7, 7, 0, 0, 0, 0, 0, 0, 8, 8, 8]);
}

#[test]
fn set_bits_are_found() {
    assert!(!has_set_bit(&vec![]));
    assert!(!has_set_bit(&vec![false, false]));
    assert!(has_set_bit(&vec![false, false, true]));
}

#[test]
fn flush_steps_put_data_before_metadata() {
    assert_eq!(plan_flush(0, 1, 1), Vec::<FlushStep>::new());
    let plan = plan_flush(2, 9, 3);
    assert_eq!(
        plan,
        vec![
            FlushStep::SyncData { extent: 0 },
            FlushStep::SyncData { extent: 1 },
            FlushStep::WriteMeta { extent: 0, flush_number: 9, generation: 3 },
            FlushStep::WriteMeta { extent: 1, flush_number: 9, generation: 3 },
            FlushStep::SyncMeta { extent: 0 },
            FlushStep::SyncMeta { extent: 1 },
        ]
    );
    for extent in 0..2 {
        let data = plan.iter().position(|s| *s == FlushStep::SyncData { extent }).unwrap();
        let meta = plan
            .iter()
            .position(|s| *s == FlushStep::WriteMeta { extent, flush_number: 9, generation: 3 })
            .unwrap();
        let sync = plan.iter().position(|s| *s == FlushStep::SyncMeta { extent }).unwrap();
        assert!(data < meta && meta < sync);
    }
}
