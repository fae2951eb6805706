use visible_rects::extract::extract_runs;
use visible_rects::merge::merge_rects;
use visible_rects::rect::{Rect, MAX_MERGE_WASTE, MAX_RECT_SIZE};
use visible_rects::report::{to_regions, Region};
use visible_rects::split::split_rects;

fn rect(x: usize, y: usize, x_end: usize, y_end: usize, used_pixels: usize) -> Rect {
    Rect { x, y, x_end, y_end, used_pixels }
}

fn row(alpha: &[u8]) -> Vec<u8> {
    alpha.iter().flat_map(|a| [10, 20, 30, *a]).collect()
}

#[test]
fn limits_have_their_values() {
    assert_eq!(MAX_RECT_SIZE, 512);
    assert_eq!(MAX_MERGE_WASTE, 8192);
}

#[test]
fn rect_measures() {
    let r = rect(3, 5, 10, 9, 20);
    assert_eq!(r.width(), 7);
    assert_eq!(r.height(), 4);
    assert_eq!(r.area(), 28);
    assert_eq!(r.wasted(), 8);
    assert_eq!(rect(0, 0, 2, 2, 4).wasted(), 0);
}

#[test]
fn rects_that_touch_do_not_intersect() {
    let a = rect(0, 0, 10, 10, 0);
    assert!(a.intersect(&rect(9, 9, 12, 12, 0)));
    assert!(a.intersect(&rect(2, 2, 3, 3, 0)));
    assert!(a.intersect(&a));
    assert!(!a.intersect(&rect(10, 0, 20, 10, 0)));
    assert!(!a.intersect(&rect(0, 10, 10, 20, 0)));
    assert!(!a.intersect(&rect(10, 10, 20, 20, 0)));
    assert!(!rect(10, 0, 20, 10, 0).intersect(&a));
    assert!(!a.intersect(&rect(3, 11, 4, 12, 0)));
}

#[test]
fn merge_is_the_bounding_box_with_both_counts() {
    let a = rect(5, 6, 7, 8, 3);
    let b = rect(1, 7, 6, 20, 11);
    assert_eq!(a.merge(&b), rect(1, 6, 7, 20, 14));
    assert_eq!(b.merge(&a), rect(1, 6, 7, 20, 14));
    assert_eq!(a.merge(&a), rect(5, 6, 7, 8, 6));
}

#[test]
fn region_of_a_rect() {
    assert_eq!(
        Region::from_rect(&rect(3, 5, 10, 9, 1)),
        Region { x: 3, y: 5, width: 7, height: 4 }
    );
}

#[test]
fn runs_of_one_row() {
    let pixels = row(&[1, 1, 0, 0, 7, 0, 255, 255, 255]);
    let (runs, hash) = extract_runs(&pixels, 9, 1);
    assert_eq!(runs, vec![rect(0, 0, 2, 1, 2), rect(4, 0, 5, 1, 1), rect(6, 0, 9, 1, 3)]);
    assert_eq!(hash, crc32fast::hash(&pixels));
}

#[test]
fn runs_come_row_by_row() {
    let pixels = row(&[0, 1, 1, 1, 1, 0, 0, 0, 0, 1, 0, 1]);
    let (runs, _) = extract_runs(&pixels, 3, 4);
    assert_eq!(
        runs,
        vec![
            rect(1, 0, 3, 1, 2),
            rect(0, 1, 2, 2, 2),
            rect(0, 3, 1, 4, 1),
            rect(2, 3, 3, 4, 1),
        ]
    );
}

#[test]
fn run_that_fills_a_wide_row_is_not_cut() {
    let pixels = row(&vec![1u8; 1500]);
    let (runs, _) = extract_runs(&pixels, 1500, 1);
    assert_eq!(runs, vec![rect(0, 0, 1500, 1, 1500)]);
}

#[test]
fn rows_without_columns_have_no_runs() {
    let (runs, hash) = extract_runs(&[], 0, 5);
    assert!(runs.is_empty());
    assert_eq!(hash, 0);
}

#[test]
fn merging_nothing_or_one() {
    assert_eq!(merge_rects(vec![]), vec![]);
    assert_eq!(merge_rects(vec![rect(1, 1, 2, 2, 1)]), vec![rect(1, 1, 2, 2, 1)]);
}

#[test]
fn waste_at_the_budget_is_merged() {
    // the box is 17 wide and 482 high: 8194 pixels, 2 of them counted
    let out = merge_rects(vec![rect(0, 0, 1, 1, 1), rect(16, 481, 17, 482, 1)]);
    assert_eq!(out, vec![rect(0, 0, 17, 482, 2)]);
    assert_eq!(out[0].wasted(), 8192);
}

#[test]
fn waste_above_the_budget_is_not_merged() {
    // the box would be 55 wide and 149 high: 8195 pixels, 2 of them counted
    let input = vec![rect(0, 0, 1, 1, 1), rect(54, 148, 55, 149, 1)];
    assert_eq!(merge_rects(input.clone()), input);
}

#[test]
fn box_larger_than_a_tile_is_not_merged() {
    let input = vec![rect(0, 0, 300, 1, 300), rect(300, 0, 600, 1, 300)];
    assert_eq!(merge_rects(input.clone()), input);
    let input = vec![rect(0, 0, 1, 300, 300), rect(0, 300, 1, 513, 213)];
    assert_eq!(merge_rects(input.clone()), input);
    let fits = vec![rect(0, 0, 1, 300, 300), rect(0, 300, 1, 512, 212)];
    assert_eq!(merge_rects(fits), vec![rect(0, 0, 1, 512, 512)]);
}

#[test]
fn least_wasteful_pair_goes_first() {
    // (0, 1) wastes 3, (1, 2) wastes 1: the second pair is merged first,
    // and the first rectangle joins its box afterwards.
    let input = vec![rect(0, 0, 1, 1, 1), rect(4, 0, 5, 1, 1), rect(6, 0, 7, 1, 1)];
    assert_eq!(merge_rects(input), vec![rect(0, 0, 7, 1, 3)]);
    // with a far third rectangle only the cheaper pair is merged
    let input = vec![rect(0, 0, 1, 1, 1), rect(900, 0, 901, 1, 1), rect(903, 0, 904, 1, 1)];
    assert_eq!(
        merge_rects(input),
        vec![rect(0, 0, 1, 1, 1), rect(900, 0, 904, 1, 2)]
    );
}

#[test]
fn first_pair_wins_a_tie() {
    // every neighbouring pair wastes one pixel; (0, 1) comes first
    let far = 5000;
    let input = vec![
        rect(0, 0, 1, 1, 1),
        rect(2, 0, 3, 1, 1),
        rect(far, 0, far + 1, 1, 1),
        rect(far + 2, 0, far + 3, 1, 1),
    ];
    assert_eq!(
        merge_rects(input),
        vec![rect(0, 0, 3, 1, 2), rect(far, 0, far + 3, 1, 2)]
    );
}

#[test]
fn merged_box_absorbs_what_it_overlaps() {
    // the column is too high to be merged with either pixel, but the box
    // of the two pixels overlaps it
    let input = vec![rect(0, 0, 1, 1, 1), rect(10, 10, 11, 11, 1), rect(5, 2, 6, 700, 698)];
    assert_eq!(merge_rects(input), vec![rect(0, 0, 11, 700, 700)]);
}

#[test]
fn absorbing_starts_over_after_each_growth() {
    // the first rectangle overlaps the box only after the box has grown
    // over the last one
    let input = vec![
        rect(30, 600, 31, 601, 1),
        rect(0, 0, 1, 1, 1),
        rect(10, 10, 11, 11, 1),
        rect(5, 2, 40, 700, 24430),
    ];
    assert_eq!(merge_rects(input), vec![rect(0, 0, 40, 700, 24433)]);
}

#[test]
fn rectangles_that_stay_keep_the_order_of_removal() {
    // entries 1 and 3 are merged: the last entry moves into each gap
    let far = 10_000;
    let input = vec![
        rect(0, 0, 1, 1, 1),
        rect(far, 0, far + 1, 1, 1),
        rect(0, far, 1, far + 1, 1),
        rect(far + 1, 0, far + 2, 1, 1),
        rect(far, far, far + 1, far + 1, 1),
    ];
    assert_eq!(
        merge_rects(input),
        vec![
            rect(0, 0, 1, 1, 1),
            rect(far, far, far + 1, far + 1, 1),
            rect(0, far, 1, far + 1, 1),
            rect(far, 0, far + 2, 1, 2),
        ]
    );
}

#[test]
fn split_leaves_small_rectangles_alone() {
    let input = vec![rect(0, 0, 512, 512, 9), rect(600, 0, 601, 1, 1)];
    assert_eq!(split_rects(input.clone()), input);
    assert_eq!(split_rects(vec![]), vec![]);
}

#[test]
fn split_along_the_width() {
    let out = split_rects(vec![rect(10, 3, 1210, 4, 1200)]);
    assert_eq!(
        out,
        vec![rect(10, 3, 522, 4, 1200), rect(522, 3, 1034, 4, 688), rect(1034, 3, 1210, 4, 176)]
    );
}

#[test]
fn split_along_the_height() {
    let out = split_rects(vec![rect(7, 0, 8, 513, 513)]);
    assert_eq!(out, vec![rect(7, 0, 8, 512, 513), rect(7, 512, 8, 513, 1)]);
}

#[test]
fn split_along_both() {
    let out = split_rects(vec![rect(0, 0, 600, 600, 360_000), rect(0, 700, 1, 701, 1)]);
    assert_eq!(
        out,
        vec![
            rect(0, 0, 512, 512, 360_000),
            rect(0, 700, 1, 701, 1),
            rect(512, 0, 600, 512, 359_488),
            rect(0, 512, 512, 600, 359_488),
            rect(512, 512, 600, 600, 358_976),
        ]
    );
}

#[test]
fn split_count_of_a_sparse_rectangle_stops_at_zero() {
    let out = split_rects(vec![rect(0, 0, 1100, 1, 600)]);
    assert_eq!(
        out,
        vec![rect(0, 0, 512, 1, 600), rect(512, 0, 1024, 1, 88), rect(1024, 0, 1100, 1, 0)]
    );
}

#[test]
fn regions_keep_the_order_of_the_rects() {
    let rects = vec![rect(3, 5, 10, 9, 1), rect(0, 0, 1, 1, 1)];
    assert_eq!(
        to_regions(&rects),
        vec![Region { x: 3, y: 5, width: 7, height: 4 }, Region { x: 0, y: 0, width: 1, height: 1 }]
    );
    assert_eq!(to_regions(&vec![]), vec![]);
}
