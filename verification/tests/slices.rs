use rectangular_promotion::{OwnedSlice, SliceIndex, SliceResolution};

#[test]
fn owned_slice_window() {
    let slice = OwnedSlice::new(vec![0, 1, 0, 1, 0], 1, 4);
    assert_eq!(slice.len(), 3);
    assert_eq!(slice.get(0), Some(1));
    assert_eq!(slice.get(1), Some(0));
    assert_eq!(slice.get(2), Some(1));
    assert_eq!(slice.get(3), None);

    let (buffer, start, end) = slice.inner();
    assert_eq!(buffer.as_slice(), &[0, 1, 0, 1, 0]);
    assert_eq!((start, end), (1, 4));
}

#[test]
fn singleton_indices_resolve() {
    assert_eq!(
        SliceIndex::Singleton(0).resolve(5),
        Some(SliceResolution::Item(0))
    );
    assert_eq!(
        SliceIndex::Singleton(4).resolve(5),
        Some(SliceResolution::Item(4))
    );
    assert_eq!(SliceIndex::Singleton(5).resolve(5), None);
    assert_eq!(
        SliceIndex::Singleton(-1).resolve(5),
        Some(SliceResolution::Item(4))
    );
    assert_eq!(SliceIndex::Singleton(-6).resolve(5), None);
}

#[test]
fn range_indices_resolve() {
    assert_eq!(
        SliceIndex::Range { start: 1, end: 3 }.resolve(5),
        Some(SliceResolution::Window { start: 1, end: 3 })
    );
    assert_eq!(
        SliceIndex::Range { start: -3, end: -1 }.resolve(5),
        Some(SliceResolution::Window { start: 2, end: 4 })
    );
    assert_eq!(SliceIndex::Range { start: 3, end: 2 }.resolve(5), None);
    assert_eq!(SliceIndex::Range { start: 0, end: 6 }.resolve(5), None);
    assert_eq!(
        SliceIndex::RangeFrom { start: 2 }.resolve(5),
        Some(SliceResolution::Window { start: 2, end: 5 })
    );
    assert_eq!(SliceIndex::RangeFrom { start: 6 }.resolve(5), None);
    assert_eq!(
        SliceIndex::RangeFull.resolve(5),
        Some(SliceResolution::Window { start: 0, end: 5 })
    );
    assert_eq!(
        SliceIndex::RangeTo { end: -2 }.resolve(5),
        Some(SliceResolution::Window { start: 0, end: 3 })
    );
    assert_eq!(SliceIndex::RangeTo { end: -6 }.resolve(5), None);
}
