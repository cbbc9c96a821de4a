use orinium_text::text_analysis::{analyze_paragraphs, default_paragraph_level};
use orinium_text::BidiMode;
use orinium_text::Direction::{Ltr, Rtl};

fn summary(text: &str, mode: BidiMode) -> Vec<(usize, usize, orinium_text::Direction, Vec<(usize, usize, orinium_text::Direction)>, Vec<usize>)> {
    analyze_paragraphs(text, mode)
        .into_iter()
        .map(|p| {
            (
                p.start,
                p.end,
                p.direction,
                p.runs.iter().map(|r| (r.start, r.end, r.direction)).collect(),
                p.break_offsets,
            )
        })
        .collect()
}

#[test]
fn default_levels_of_modes() {
    assert_eq!(default_paragraph_level(BidiMode::Auto), None);
    assert_eq!(default_paragraph_level(BidiMode::Ltr), Some(0));
    assert_eq!(default_paragraph_level(BidiMode::Rtl), Some(1));
}

#[test]
fn empty_text_has_no_paragraphs() {
    assert!(analyze_paragraphs("", BidiMode::Auto).is_empty());
}

#[test]
fn latin_paragraph() {
    assert_eq!(
        summary("Hello world", BidiMode::Ltr),
        vec![(0, 11, Ltr, vec![(0, 11, Ltr)], vec![6, 11])]
    );
}

#[test]
fn hebrew_paragraph_is_right_to_left_in_auto_mode() {
    let text = "\u{05e9}\u{05dc}\u{05d5}\u{05dd}";
    assert_eq!(summary(text, BidiMode::Auto), vec![(0, 8, Rtl, vec![(0, 8, Rtl)], vec![8])]);
}

#[test]
fn mixed_paragraph_splits_into_runs() {
    let text = "abc \u{05e9}\u{05dc}\u{05d5}\u{05dd}";
    assert_eq!(
        summary(text, BidiMode::Ltr),
        vec![(0, 12, Ltr, vec![(0, 4, Ltr), (4, 12, Rtl)], vec![4, 12])]
    );
}

#[test]
fn newlines_end_paragraphs() {
    assert_eq!(
        summary("ab\n\ncd", BidiMode::Ltr),
        vec![
            (0, 3, Ltr, vec![(0, 3, Ltr)], vec![3]),
            (3, 4, Ltr, vec![(0, 1, Ltr)], vec![4]),
            (4, 6, Ltr, vec![(0, 2, Ltr)], vec![6]),
        ]
    );
}

/// The runs of each paragraph in the order they are shown.
fn shown_runs(text: &str, mode: BidiMode) -> Vec<Vec<(usize, usize, orinium_text::Direction)>> {
    analyze_paragraphs(text, mode)
        .into_iter()
        .map(|p| p.order.iter().map(|&i| (p.runs[i].start, p.runs[i].end, p.runs[i].direction)).collect())
        .collect()
}

#[test]
fn right_to_left_paragraph_shows_later_latin_first() {
    // Hebrew letters and a space (bytes 0..5), then "cd" (bytes 5..7)
    let text = "\u{05d0}\u{05d1} cd";
    assert_eq!(shown_runs(text, BidiMode::Auto), vec![vec![(5, 7, Ltr), (0, 5, Rtl)]]);
}

#[test]
fn left_to_right_paragraph_keeps_logical_order() {
    let text = "abc \u{05e9}\u{05dc}\u{05d5}\u{05dd}";
    assert_eq!(shown_runs(text, BidiMode::Ltr), vec![vec![(0, 4, Ltr), (4, 12, Rtl)]]);
}
