use orinium_text::layout::VisualRun;
use orinium_text::reorder::{run_parts_order, visual_order, visual_run_order};
use orinium_text::Direction::{Ltr, Rtl};

#[test]
fn visual_order_reverses_odd_levels() {
    // L2: reverse at 3, then at 2 and up, then at 1 and up
    assert_eq!(visual_order(&[1, 2, 3, 0]), vec![1, 2, 0, 3]);
    assert_eq!(visual_order(&[1, 1, 1]), vec![2, 1, 0]);
    assert_eq!(visual_order(&[0, 0]), vec![0, 1]);
    assert_eq!(visual_order(&[1, 2]), vec![1, 0]);
    assert_eq!(visual_order(&[0, 1, 1, 0]), vec![0, 2, 1, 3]);
    assert!(visual_order(&[]).is_empty());
}

#[test]
fn runs_are_ordered_at_their_lowest_level() {
    let runs = vec![
        VisualRun { start: 0, end: 2, direction: Rtl },
        VisualRun { start: 2, end: 4, direction: Ltr },
        VisualRun { start: 4, end: 5, direction: Rtl },
    ];
    // run levels 1, 2 (lowest of 2 and 4), 1
    assert_eq!(visual_run_order(&[1, 1, 4, 2, 1], &runs), vec![2, 1, 0]);
    // a byte without a level counts as level 0
    assert_eq!(visual_run_order(&[1, 1, 2, 2], &runs), vec![1, 0, 2]);
}

#[test]
fn parts_of_a_right_to_left_run_are_reversed() {
    assert_eq!(run_parts_order(3, Rtl), vec![2, 1, 0]);
    assert_eq!(run_parts_order(3, Ltr), vec![0, 1, 2]);
    assert!(run_parts_order(0, Rtl).is_empty());
}
