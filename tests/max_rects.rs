use max_rects::bucket::Bucket;
use max_rects::max_rects::{best_fit, MaxRects};
use max_rects::packing_box::PackingBox;

fn coords_of(bins: &[Bucket]) -> Vec<(i32, i32, i32, i32)> {
    bins.iter().map(|b| b.get_coords()).collect()
}

#[test]
fn max_rects_test_new() {
    let boxes = vec![PackingBox::new(5, 6)];
    let bins = vec![Bucket::new(10, 20, 0, 0, 1)];
    let max_rects = MaxRects::new(boxes, bins);

    assert_eq!(max_rects.boxes.len(), 1);
    assert_eq!(max_rects.bins.len(), 1);
}

#[test]
fn test_place_single_box() {
    let boxes = vec![PackingBox::new(5, 6)];
    let bins = vec![Bucket::new(10, 20, 0, 0, 1)];
    let mut max_rects = MaxRects::new(boxes, bins);
    let (placed, remaining, updated_bins) = max_rects.place();

    assert_eq!(placed.len(), 1);
    assert!(remaining.is_empty());
    assert_eq!(updated_bins.len(), 2);
    assert_eq!(placed[0].get_coords(), (0, 5, 14, 20));
    assert_eq!(updated_bins[0].get_coords(), (5, 10, 0, 20));
    assert_eq!(updated_bins[1].get_coords(), (0, 10, 0, 14));
}

#[test]
fn test_place_multiple_boxes() {
    let boxes = vec![PackingBox::new(5, 6), PackingBox::new(4, 4)];
    let bins = vec![Bucket::new(10, 20, 0, 0, 1)];
    let mut max_rects = MaxRects::new(boxes, bins);
    let (placed, remaining, updated_bins) = max_rects.place();

    assert_eq!(placed.len(), 2);
    assert!(remaining.is_empty());
    assert_eq!(updated_bins.len(), 3);
    assert_eq!(placed[0].get_coords(), (0, 5, 14, 20));
    assert_eq!(placed[1].get_coords(), (5, 9, 16, 20));

    assert_eq!(updated_bins[0].get_coords(), (0, 10, 0, 14));
    assert_eq!(updated_bins[1].get_coords(), (9, 10, 0, 20));
    assert_eq!(updated_bins[2].get_coords(), (5, 10, 0, 16));
}

#[test]
fn test_place_no_fit() {
    let boxes = vec![PackingBox::new(15, 16)];
    let bins = vec![Bucket::new(10, 20, 0, 0, 1)];
    let mut max_rects = MaxRects::new(boxes, bins);
    let (placed, remaining, updated_bins) = max_rects.place();

    assert!(placed.is_empty());
    assert_eq!(remaining.len(), 1);
    assert_eq!(updated_bins.len(), 1);
}

#[test]
fn no_fit_leaves_container_unchanged() {
    let bins = vec![Bucket::new(10, 20, 0, 0, 1)];
    let mut problem = MaxRects::new(vec![PackingBox::new(15, 16)], bins.clone());
    let (_, remaining, updated_bins) = problem.place();
    assert_eq!(remaining[0].width, 15);
    assert_eq!(remaining[0].originx, None);
    assert_eq!(updated_bins, bins);
    assert_eq!(problem.bins, bins);
    assert_eq!(problem.boxes.len(), 1);
}

#[test]
fn carves_regions_around_placed_item() {
    let boxes = vec![PackingBox::new(6, 2), PackingBox::new(4, 5)];
    let bins = vec![Bucket::new(10, 10, 0, 0, 0)];
    let (placed, remaining, updated_bins) = MaxRects::new(boxes, bins).place();
    assert!(remaining.is_empty());
    assert_eq!(placed[0].get_coords(), (0, 6, 8, 10));
    assert_eq!(placed[1].get_coords(), (6, 10, 5, 10));
    assert_eq!(coords_of(&updated_bins), vec![(0, 6, 0, 8), (0, 10, 0, 5)]);
}

#[test]
fn non_positive_items_are_never_placed() {
    let boxes = vec![PackingBox::new(0, 5), PackingBox::new(3, -1), PackingBox::new(2, 2)];
    let bins = vec![Bucket::new(10, 10, 0, 0, 0)];
    let (placed, remaining, _) = MaxRects::new(boxes, bins).place();
    assert_eq!(placed.len(), 1);
    assert_eq!(placed[0].width, 2);
    assert_eq!(remaining.len(), 2);
    assert_eq!(remaining[0].width, 0);
    assert_eq!(remaining[1].height, -1);
}

#[test]
fn place_again_with_no_items_changes_nothing() {
    let boxes = vec![PackingBox::new(5, 6), PackingBox::new(4, 4), PackingBox::new(7, 3)];
    let bins = vec![Bucket::new(10, 20, 0, 0, 1), Bucket::new(8, 8, 0, 0, 2)];
    let (_, _, leftover) = MaxRects::new(boxes, bins).place();
    let (placed, remaining, again) = MaxRects::new(vec![], leftover.clone()).place();
    assert!(placed.is_empty());
    assert!(remaining.is_empty());
    assert_eq!(again, leftover);
}

#[test]
fn empty_inputs_give_empty_results() {
    let (placed, remaining, bins) = MaxRects::new(vec![], vec![]).place();
    assert!(placed.is_empty() && remaining.is_empty() && bins.is_empty());
    let (placed, remaining, bins) = MaxRects::new(vec![PackingBox::new(1, 1)], vec![]).place();
    assert!(placed.is_empty() && bins.is_empty());
    assert_eq!(remaining.len(), 1);
}

#[test]
fn best_fit_picks_tightest_then_lowest_index() {
    let bins = vec![
        Bucket::new(10, 10, 0, 0, 0),
        Bucket::new(6, 9, 0, 0, 1),
        Bucket::new(9, 6, 0, 0, 2),
        Bucket::new(4, 4, 0, 0, 3),
    ];
    assert_eq!(best_fit(&PackingBox::new(5, 5), &bins), Some((1, 1)));
    assert_eq!(best_fit(&PackingBox::new(4, 4), &bins), Some((0, 3)));
    assert_eq!(best_fit(&PackingBox::new(11, 1), &bins), None);
}

#[test]
fn packing_results_are_consistent() {
    let mut seed: u32 = 12345;
    let mut boxes = Vec::new();
    for _ in 0..40 {
        seed = seed.wrapping_mul(1103515245).wrapping_add(12345);
        let w = ((seed >> 16) % 30 + 1) as i32;
        seed = seed.wrapping_mul(1103515245).wrapping_add(12345);
        let h = ((seed >> 16) % 30 + 1) as i32;
        boxes.push(PackingBox::new(w, h));
    }
    let bins = vec![Bucket::new(60, 60, 0, 0, 0), Bucket::new(50, 70, 5, 5, 1)];
    let (placed, remaining, free) = MaxRects::new(boxes.clone(), bins).place();
    assert_eq!(placed.len() + remaining.len(), boxes.len());
    assert!(!placed.is_empty());
    for (a, pa) in placed.iter().enumerate() {
        let (l, r, t, b) = pa.get_coords();
        let region = Bucket::new(r - l, b - t, l, t, pa.bucketid.unwrap());
        for (c, pc) in placed.iter().enumerate() {
            if a != c {
                assert!(!pc.overlap(&region));
            }
        }
    }
    for f in &free {
        assert!(f.width > 0 && f.height > 0);
        for p in &placed {
            assert!(!p.overlap(f));
        }
        for g in &free {
            assert!(!(f != g && f.contains(g)));
        }
    }
}
