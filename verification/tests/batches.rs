use ap_project::training::batch_ranges;

#[test]
fn batches_cover_the_examples_in_order() {
    assert_eq!(batch_ranges(10, 3), vec![(0, 3), (3, 6), (6, 9), (9, 10)]);
    assert_eq!(batch_ranges(9, 3), vec![(0, 3), (3, 6), (6, 9)]);
    assert_eq!(batch_ranges(2, 50), vec![(0, 2)]);
    assert!(batch_ranges(0, 4).is_empty());
}

#[test]
fn updates_per_epoch_is_the_ceiling() {
    for &batch in &[10usize, 50, 200] {
        assert_eq!(batch_ranges(500, batch).len(), (500 + batch - 1) / batch);
    }
    assert_eq!(batch_ranges(500, 200).len(), 3);
}
