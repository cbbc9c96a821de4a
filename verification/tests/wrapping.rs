use orinium_text::wrapping::{wrap_begin, wrap_finish, wrap_step, BreakPoint, LineWidth, WrapState};

/// Wraps fragments given as (cluster, width, break_after) at `max_width`,
/// accumulating widths as a layout engine does.
fn wrap(text_len: usize, frags: &[(usize, u32, bool)], max_width: u32) -> Vec<(usize, usize)> {
    let mut lines = Vec::new();
    let mut state = wrap_begin();
    let mut width = 0u32;
    for (i, &(cluster, w, brk)) in frags.iter().enumerate() {
        width += w;
        let next = frags.get(i + 1).map(|f| f.0).unwrap_or(text_len);
        let step = wrap_step(state, i, cluster, width > max_width, brk, next);
        if let Some(line) = step.line {
            lines.push(line);
        }
        if let LineWidth::Restart(first) = step.width {
            width = frags[first..=i].iter().map(|f| f.1).sum();
        }
        state = step.state;
    }
    if let Some(line) = wrap_finish(state, text_len) {
        lines.push(line);
    }
    lines
}

fn bp(offset: usize, fragment: usize) -> Option<BreakPoint> {
    Some(BreakPoint { offset, fragment })
}

#[test]
fn wrap_begins_at_zero_without_break() {
    assert_eq!(wrap_begin(), WrapState { line_start: 0, last_break: None });
}

#[test]
fn wrap_step_without_overflow_records_break() {
    let s = WrapState { line_start: 0, last_break: None };
    let step = wrap_step(s, 2, 3, false, true, 5);
    assert_eq!(step.state, WrapState { line_start: 0, last_break: bp(5, 3) });
    assert_eq!(step.line, None);
    assert_eq!(step.width, LineWidth::Keep);
    let step = wrap_step(step.state, 3, 5, false, false, 6);
    assert_eq!(step.state, WrapState { line_start: 0, last_break: bp(5, 3) });
}

#[test]
fn wrap_step_overflow_cuts_at_last_break() {
    let s = WrapState { line_start: 0, last_break: bp(6, 4) };
    let step = wrap_step(s, 5, 8, true, false, 9);
    assert_eq!(step.line, Some((0, 6)));
    assert_eq!(step.state, WrapState { line_start: 6, last_break: None });
    // the new line holds fragments 4 and 5
    assert_eq!(step.width, LineWidth::Restart(4));
}

#[test]
fn wrap_step_overflow_without_break_cuts_at_fragment() {
    let s = WrapState { line_start: 2, last_break: None };
    let step = wrap_step(s, 7, 7, true, true, 8);
    assert_eq!(step.line, Some((2, 7)));
    assert_eq!(step.state, WrapState { line_start: 7, last_break: bp(8, 8) });
    assert_eq!(step.width, LineWidth::Restart(7));
}

#[test]
fn wrap_step_overflow_at_line_start_emits_nothing() {
    let s = WrapState { line_start: 4, last_break: None };
    let step = wrap_step(s, 4, 4, true, false, 5);
    assert_eq!(step.line, None);
    assert_eq!(step.state, WrapState { line_start: 4, last_break: None });
    assert_eq!(step.width, LineWidth::Restart(4));
}

#[test]
fn wrap_finish_closes_remaining_text() {
    assert_eq!(wrap_finish(WrapState { line_start: 3, last_break: None }, 10), Some((3, 10)));
    assert_eq!(wrap_finish(WrapState { line_start: 10, last_break: bp(10, 4) }, 10), None);
}

#[test]
fn greedy_wrapping_of_words_tiles_the_text() {
    // "aa bb cc" as one fragment per byte, width 1 each, breaks after spaces.
    let frags: Vec<(usize, u32, bool)> =
        (0..8).map(|i| (i, 1, i == 2 || i == 5)).collect();
    assert_eq!(wrap(8, &frags, 3), vec![(0, 3), (3, 6), (6, 8)]);
    assert_eq!(wrap(8, &frags, 4), vec![(0, 3), (3, 6), (6, 8)]);
    assert_eq!(wrap(8, &frags, 5), vec![(0, 3), (3, 8)]);
    assert_eq!(wrap(8, &frags, 100), vec![(0, 8)]);
    // a word longer than the line is cut inside it
    let long: Vec<(usize, u32, bool)> = (0..6).map(|i| (i, 1, false)).collect();
    assert_eq!(wrap(6, &long, 2), vec![(0, 2), (2, 4), (4, 6)]);
}

#[test]
fn fragments_after_the_cut_count_on_the_new_line() {
    // widths 5, 5, 5, 5 at a limit of 12, with a break after the first fragment
    let frags = [(0, 5, true), (1, 5, false), (2, 5, false), (3, 5, true)];
    assert_eq!(wrap(4, &frags, 12), vec![(0, 1), (1, 3), (3, 4)]);
}

#[test]
fn wrapped_lines_end_at_break_opportunities() {
    // "ab cd ef" with breaks allowed after the spaces (fragments 2 and 5)
    let frags: Vec<(usize, u32, bool)> = (0..8).map(|i| (i, 1, i == 2 || i == 5)).collect();
    let lines = wrap(8, &frags, 5);
    assert_eq!(lines, vec![(0, 3), (3, 8)]);
    for &(_, end) in &lines[..lines.len() - 1] {
        assert!(end == 3 || end == 6, "line end {end} is not after a space");
    }
}
