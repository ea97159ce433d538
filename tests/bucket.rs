use max_rects::bucket::Bucket;

#[test]
fn test_bucket_creation() {
    let bucket = Bucket::new(10, 20, 5, 5, 1);
    assert_eq!(bucket.width, 10);
    assert_eq!(bucket.height, 20);
    assert_eq!(bucket.originx, 5);
    assert_eq!(bucket.originy, 5);
    assert_eq!(bucket.bucketid, 1);
}

#[test]
fn bucket_test_get_coords() {
    let bucket = Bucket::new(10, 20, 5, 5, 1);
    assert_eq!(bucket.get_coords(), (5, 15, 5, 25));
}

#[test]
fn bucket_test_get_corners() {
    let bucket = Bucket::new(10, 20, 5, 5, 1);
    assert_eq!(bucket.get_corners(), [(5, 5), (15, 5), (5, 25), (15, 25)]);
}

#[test]
fn bucket_test_overlap() {
    let bucket1 = Bucket::new(10, 10, 0, 0, 1);
    let bucket2 = Bucket::new(10, 10, 5, 5, 1);
    assert!(bucket1.overlap(&bucket2));
}

#[test]
fn test_overlap_bucket() {
    let bucket1 = Bucket::new(10, 10, 0, 0, 1);
    let bucket2 = Bucket::new(10, 10, 5, 5, 0);
    assert!(!bucket1.overlap(&bucket2));
}

#[test]
fn test_no_overlap() {
    let bucket1 = Bucket::new(10, 10, 0, 0, 1);
    let bucket2 = Bucket::new(10, 10, 10, 10, 1);
    assert!(!bucket1.overlap(&bucket2));
}

#[test]
fn test_contains() {
    let bucket1 = Bucket::new(10, 10, 0, 0, 1);
    let bucket2 = Bucket::new(5, 5, 2, 2, 1);
    assert!(bucket1.contains(&bucket2));
}

#[test]
fn test_not_contains() {
    let bucket1 = Bucket::new(10, 10, 0, 0, 1);
    let bucket2 = Bucket::new(5, 5, 6, 6, 1);
    assert!(!bucket1.contains(&bucket2));
}

#[test]
fn test_area() {
    let bucket = Bucket::new(10, 20, 5, 5, 1);
    assert_eq!(bucket.area(), 200);
}

#[test]
fn bucket_edge_touch_is_not_overlap() {
    let a = Bucket::new(10, 10, 0, 0, 1);
    let b = Bucket::new(10, 10, 10, 0, 1);
    let c = Bucket::new(10, 10, 0, 10, 1);
    assert!(!a.overlap(&b));
    assert!(!a.overlap(&c));
    assert!(!b.overlap(&a));
}

#[test]
fn bucket_contains_boundaries_inclusive() {
    let a = Bucket::new(10, 10, 0, 0, 1);
    assert!(a.contains(&a));
    assert!(a.contains(&Bucket::new(10, 5, 0, 5, 1)));
    assert!(!a.contains(&Bucket::new(10, 10, 0, 0, 2)));
    assert!(!a.contains(&Bucket::new(11, 10, 0, 0, 1)));
}
