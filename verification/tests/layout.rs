use orinium_text::layout::{
    break_after_flags, build_visual_runs, coverage_ranges, fallback_font, find_paragraph,
    plan_lines, select_line_glyphs, FallbackFont, ShapedGlyph, TextLayouter, VisualRun,
};
use orinium_text::Direction::{Ltr, Rtl};

fn runs(text: &str, base: orinium_text::Direction, levels: &[u8]) -> Vec<(usize, usize, orinium_text::Direction)> {
    build_visual_runs(text, base, levels)
        .iter()
        .map(|r: &VisualRun| (r.start, r.end, r.direction))
        .collect()
}

#[test]
fn visual_runs_of_empty_text() {
    assert!(build_visual_runs("", Ltr, &[]).is_empty());
}

#[test]
fn visual_runs_single_direction() {
    assert_eq!(runs("Hello", Ltr, &[0, 0, 0, 0, 0]), vec![(0, 5, Ltr)]);
    assert_eq!(runs("abc", Rtl, &[1, 1, 1]), vec![(0, 3, Rtl)]);
}

#[test]
fn visual_runs_split_and_merge() {
    assert_eq!(
        runs("abcdef", Ltr, &[0, 0, 1, 1, 0, 2]),
        vec![(0, 2, Ltr), (2, 4, Rtl), (4, 6, Ltr)]
    );
}

#[test]
fn visual_runs_first_character_takes_its_own_direction() {
    assert_eq!(runs("abc", Ltr, &[1, 1, 0]), vec![(0, 2, Rtl), (2, 3, Ltr)]);
    // left-to-right text inside a right-to-left paragraph
    assert_eq!(runs("ab", Rtl, &[2, 2]), vec![(0, 2, Ltr)]);
}

#[test]
fn visual_runs_cut_only_at_character_starts() {
    // "aあb": 'あ' takes bytes 1..4; the levels of its continuation bytes are ignored
    assert_eq!(runs("aあb", Ltr, &[0, 1, 0, 0, 0]), vec![(0, 1, Ltr), (1, 4, Rtl), (4, 5, Ltr)]);
    // neighbours of one direction merge into one run
    assert_eq!(runs("aあb", Ltr, &[0, 1, 0, 0, 1]), vec![(0, 1, Ltr), (1, 5, Rtl)]);
}

#[test]
fn visual_runs_missing_levels_count_as_ltr() {
    assert_eq!(runs("abc", Rtl, &[1]), vec![(0, 1, Rtl), (1, 3, Ltr)]);
}

fn g(glyph_id: u32, cluster: u32) -> ShapedGlyph {
    ShapedGlyph { glyph_id, cluster, x_advance: 0, y_advance: 0, x_offset: 0, y_offset: 0 }
}

#[test]
fn coverage_without_glyphs_is_one_uncovered_range() {
    assert_eq!(coverage_ranges("abcd", &[]), vec![(0, 4, false)]);
}

#[test]
fn coverage_ranges_group_clusters() {
    let glyphs = [g(5, 0), g(0, 1), g(0, 2), g(7, 3)];
    assert_eq!(coverage_ranges("abcd", &glyphs), vec![(0, 1, true), (1, 3, false), (3, 4, true)]);
}

#[test]
fn coverage_ranges_sort_right_to_left_glyphs() {
    let glyphs = [g(7, 3), g(0, 2), g(0, 1), g(5, 0)];
    assert_eq!(coverage_ranges("abcd", &glyphs), vec![(0, 1, true), (1, 3, false), (3, 4, true)]);
}

#[test]
fn coverage_uses_first_glyph_of_a_cluster() {
    let glyphs = [g(0, 0), g(9, 0), g(3, 2)];
    assert_eq!(coverage_ranges("abcd", &glyphs), vec![(0, 2, false), (2, 4, true)]);
}

#[test]
fn coverage_starts_at_smallest_cluster() {
    let glyphs = [g(4, 2), g(4, 3)];
    assert_eq!(coverage_ranges("abcd", &glyphs), vec![(2, 4, true)]);
}

#[test]
fn break_flags_follow_next_cluster() {
    // fragments at clusters 0, 5, 6 of "Hello world" with breaks at 6 and 11
    assert_eq!(break_after_flags(&[0, 5, 6], 11, &[6, 11]), vec![false, true, true]);
    assert!(break_after_flags(&[], 4, &[4]).is_empty());
}

#[test]
fn paragraph_lookup() {
    let paras = [(0, 3), (3, 0), (4, 2)];
    assert_eq!(find_paragraph(&paras, 0), Some(0));
    assert_eq!(find_paragraph(&paras, 2), Some(0));
    assert_eq!(find_paragraph(&paras, 3), Some(1));
    assert_eq!(find_paragraph(&paras, 5), Some(2));
    assert_eq!(find_paragraph(&paras, 6), None);
}

#[test]
fn line_glyph_selection() {
    assert_eq!(select_line_glyphs(&[0, 1, 2, 3, 4], 1, 3), vec![1, 2]);
    assert_eq!(select_line_glyphs(&[4, 3, 2, 1, 0], 1, 3), vec![2, 3]);
    assert!(select_line_glyphs(&[0, 1], 5, 5).is_empty());
}

#[test]
fn one_plan_per_line_range() {
    // "ab\n\ncd": paragraphs "ab\n", "\n", "cd"
    let paras = [(0, 3), (3, 1), (4, 2)];
    let clusters = vec![vec![0, 1, 2], vec![3], vec![4, 5]];
    let lines = [(0, 2), (3, 3), (4, 6)];
    let plans = plan_lines(&paras, &clusters, &lines);
    assert_eq!(plans.len(), 3);
    assert_eq!(plans[0].paragraph, Some(0));
    assert_eq!(plans[0].glyphs, vec![0, 1]);
    assert_eq!(plans[1].paragraph, Some(1));
    assert!(plans[1].glyphs.is_empty());
    assert_eq!(plans[2].paragraph, Some(2));
    assert_eq!(plans[2].glyphs, vec![0, 1]);
    let outside = plan_lines(&paras, &clusters, &[(9, 12)]);
    assert_eq!(outside.len(), 1);
    assert_eq!(outside[0].paragraph, None);
}

#[test]
fn layouter_new_and_default_agree() {
    let a = TextLayouter::new();
    let b = TextLayouter::default();
    assert_eq!(format!("{:?}", a), format!("{:?}", b));
}

#[test]
fn fallback_chain_tries_keyed_fonts_then_families() {
    assert_eq!(fallback_font(2, 3, 0), Some(FallbackFont::Exact(0)));
    assert_eq!(fallback_font(2, 3, 1), Some(FallbackFont::Exact(1)));
    assert_eq!(fallback_font(2, 3, 2), Some(FallbackFont::Family(0)));
    assert_eq!(fallback_font(2, 3, 4), Some(FallbackFont::Family(2)));
    assert_eq!(fallback_font(2, 3, 5), None);
    assert_eq!(fallback_font(0, 1, 0), Some(FallbackFont::Family(0)));
    assert_eq!(fallback_font(0, 0, 0), None);
}
