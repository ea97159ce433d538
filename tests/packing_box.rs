use max_rects::bucket::Bucket;
use max_rects::packing_box::PackingBox;

#[test]
fn packing_box_test_new() {
    let box_item = PackingBox::new(5, 6);
    assert_eq!(box_item.width, 5);
    assert_eq!(box_item.height, 6);
    assert_eq!(box_item.originx, None);
    assert_eq!(box_item.originy, None);
    assert_eq!(box_item.bucketid, None);
}

#[test]
fn test_place() {
    let mut box_item = PackingBox::new(5, 6);
    box_item.place(10, 20, 1);
    assert_eq!(box_item.originx, Some(10));
    assert_eq!(box_item.originy, Some(20));
    assert_eq!(box_item.bucketid, Some(1));
}

#[test]
fn packing_box_test_get_coords() {
    let mut box_item = PackingBox::new(5, 6);
    box_item.place(10, 20, 1);
    let coords = box_item.get_coords();
    assert_eq!(coords, (10, 15, 20, 26));
}

#[test]
fn packing_box_test_get_corners() {
    let mut box_item = PackingBox::new(5, 6);
    box_item.place(10, 20, 1);
    let corners = box_item.get_corners();
    assert_eq!(corners, [(10, 20), (15, 20), (10, 26), (15, 26)]);
}

#[test]
fn packing_box_test_overlap() {
    let mut box1 = PackingBox::new(5, 6);
    box1.place(10, 20, 1);
    let mut bucket2 = Bucket::new(5, 6, 12, 22, 0);

    assert_eq!(box1.overlap(&bucket2), false);

    bucket2 = Bucket::new(5, 6, 9, 19, 1);
    assert_eq!(box1.overlap(&bucket2), true);
}

#[test]
fn unplaced_box_overlaps_nothing() {
    let box_item = PackingBox::new(5, 6);
    let bucket = Bucket::new(100, 100, 0, 0, 0);
    assert!(!box_item.overlap(&bucket));
}

#[test]
fn placed_box_touching_region_does_not_overlap() {
    let mut box_item = PackingBox::new(5, 6);
    box_item.place(0, 14, 1);
    assert!(!box_item.overlap(&Bucket::new(5, 20, 5, 0, 1)));
    assert!(!box_item.overlap(&Bucket::new(10, 14, 0, 0, 1)));
    assert!(box_item.overlap(&Bucket::new(10, 15, 0, 0, 1)));
}
