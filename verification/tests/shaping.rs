use orinium_text::layout::ShapedGlyph;
use orinium_text::shaping::{
    covers_char, range_tasks, shape_covered, shape_run, RangeTask, RunShaping, ShapeError,
};
use orinium_text::Direction::Ltr;

/// The bytes and face index of an installed font face with glyphs for the
/// Latin capitals `A` and `B`.
fn latin_font() -> (Vec<u8>, u32) {
    let mut db = fontdb::Database::new();
    db.load_system_fonts();
    let ids: Vec<fontdb::ID> = db.faces().map(|f| f.id).collect();
    for id in ids {
        let found = db.with_face_data(id, |data, index| {
            if covers_char(data, index, 'A') && covers_char(data, index, 'B') {
                Some((data.to_vec(), index))
            } else {
                None
            }
        });
        if let Some(Some(font)) = found {
            return font;
        }
    }
    panic!("no installed font has glyphs for Latin capitals");
}

fn clusters(glyphs: &[ShapedGlyph]) -> Vec<u32> {
    glyphs.iter().map(|g| g.cluster).collect()
}

#[test]
fn unparsable_font_has_no_face() {
    assert!(matches!(shape_run(&[], 0, "A", Ltr, 0), Err(ShapeError::NoFace)));
    assert!(matches!(shape_covered(&[1, 2, 3], 0, "A", Ltr, 0), Err(ShapeError::NoFace)));
    assert!(!covers_char(&[], 0, 'A'));
}

#[test]
fn covered_text_is_shaped_whole_with_moved_clusters() {
    let (data, index) = latin_font();
    match shape_run(&data, index, "AB", Ltr, 10) {
        Ok(RunShaping::Whole(glyphs)) => {
            assert_eq!(clusters(&glyphs), vec![10, 11]);
            assert!(glyphs.iter().all(|g| g.glyph_id != 0 && g.x_advance > 0));
        }
        other => panic!("expected whole shaping, got {other:?}"),
    }
}

#[test]
fn uncovered_character_splits_the_run() {
    let (data, index) = latin_font();
    // U+10FFFD is a private-use character that no font maps.
    assert!(!covers_char(&data, index, '\u{10FFFD}'));
    match shape_run(&data, index, "A\u{10FFFD}B", Ltr, 3) {
        Ok(RunShaping::Split(ranges)) => {
            assert_eq!(ranges, vec![(0, 1, true), (1, 5, false), (5, 6, true)]);
        }
        other => panic!("expected a split, got {other:?}"),
    }
}

#[test]
fn covered_part_is_shaped_at_its_offset() {
    let (data, index) = latin_font();
    let glyphs = shape_covered(&data, index, "AB", Ltr, 7).expect("shaped");
    assert_eq!(clusters(&glyphs), vec![7, 8]);
}

#[test]
fn clusters_past_32_bits_are_refused() {
    let (data, index) = latin_font();
    let at_limit = u32::MAX as usize;
    assert!(matches!(shape_run(&data, index, "AB", Ltr, at_limit), Err(ShapeError::ClusterOverflow)));
    assert!(matches!(shape_covered(&data, index, "AB", Ltr, at_limit), Err(ShapeError::ClusterOverflow)));
    let glyphs = shape_covered(&data, index, "A", Ltr, at_limit).expect("fits");
    assert_eq!(clusters(&glyphs), vec![u32::MAX]);
}

#[test]
fn range_tasks_skip_empty_parts_and_keep_offsets() {
    let tasks = range_tasks(&[(0, 1, true), (1, 5, false), (5, 6, true), (6, 6, false)], 10);
    assert_eq!(
        tasks,
        vec![
            RangeTask { start: 0, end: 1, offset: 10, reshape: true },
            RangeTask { start: 1, end: 5, offset: 11, reshape: false },
            RangeTask { start: 5, end: 6, offset: 15, reshape: true },
        ]
    );
    assert!(range_tasks(&[], 3).is_empty());
}
