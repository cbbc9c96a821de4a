use vstd::prelude::*;
use vstd::string::StringSliceAdditionalSpecFns;

use crate::layout::{coverage_ranges, coverage_ranges_of, ShapedGlyph};
use crate::types::Direction;

verus! {

/// The glyphs that shaping `text` in `direction` with face `face_index` of
/// the font file `data` gives, or none when that face cannot be parsed.
pub uninterp spec fn shaping_of(data: Seq<u8>, face_index: u32, text: Seq<char>, direction: Direction) -> Option<
    Seq<ShapedGlyph>,
>;

/// The glyph that the character map of face `face_index` of the font file
/// `data` gives `ch`, or none when the face cannot be parsed or does not map
/// `ch`.
pub uninterp spec fn cmap_glyph_of(data: Seq<u8>, face_index: u32, ch: char) -> Option<u16>;

/// Shapes `text` with `rustybuzz::shape`, no features, in `direction`, with
/// the face that `rustybuzz::Face::from_slice` parses from `data`.
///
/// Trusted: the result is `shaping_of` of the arguments, none exactly when
/// the face cannot be parsed. Which glyphs come back depends on the font's
/// tables and is left unsaid.
#[verifier::external_body]
fn rustybuzz_shape(data: &[u8], face_index: u32, text: &str, direction: Direction) -> (res: Option<Vec<ShapedGlyph>>)
    ensures
        res matches Some(v) ==> shaping_of(data@, face_index, text@, direction) == Some(v@),
        res is None ==> shaping_of(data@, face_index, text@, direction) is None,
{
    let face = rustybuzz::Face::from_slice(data, face_index)?;
    let mut buffer = rustybuzz::UnicodeBuffer::new();
    buffer.push_str(text);
    buffer.set_direction(match direction {
        Direction::Ltr => rustybuzz::Direction::LeftToRight,
        Direction::Rtl => rustybuzz::Direction::RightToLeft,
    });
    let out = rustybuzz::shape(&face, &[], buffer);
    let pairs = out.glyph_infos().iter().zip(out.glyph_positions());
    Some(pairs.map(|(i, p)| ShapedGlyph { glyph_id: i.glyph_id, cluster: i.cluster, x_advance: p.x_advance, y_advance: p.y_advance, x_offset: p.x_offset, y_offset: p.y_offset }).collect())
}

/// Looks `ch` up with `ttf_parser::Face::glyph_index` in the face that
/// `ttf_parser::Face::parse` reads from `data`.
///
/// Trusted: the result is `cmap_glyph_of` of the arguments, none when the
/// face cannot be parsed.
#[verifier::external_body]
fn ttf_glyph_index(data: &[u8], face_index: u32, ch: char) -> (res: Option<u16>)
    ensures
        res == cmap_glyph_of(data@, face_index, ch),
{
    match rustybuzz::ttf_parser::Face::parse(data, face_index) {
        Ok(face) => face.glyph_index(ch).map(|g| g.0),
        Err(_) => None,
    }
}

/// Whether face `face_index` of the font file `data` has a real glyph (not
/// `.notdef`) for `ch`.
pub fn covers_char(data: &[u8], face_index: u32, ch: char) -> (r: bool)
    ensures
        r == (cmap_glyph_of(data@, face_index, ch) matches Some(g) && g != 0),
{
    match ttf_glyph_index(data, face_index, ch) {
        Some(g) => g != 0,
        None => false,
    }
}

/// Whether some glyph of `glyphs` is `.notdef`.
pub open spec fn has_notdef(glyphs: Seq<ShapedGlyph>) -> bool {
    exists|i: int| 0 <= i < glyphs.len() && #[trigger] glyphs[i].glyph_id == 0
}

/// Every cluster of `glyphs` moved by `offset` still fits in 32 bits.
pub open spec fn clusters_fit(glyphs: Seq<ShapedGlyph>, offset: int) -> bool {
    forall|i: int| 0 <= i < glyphs.len() ==> #[trigger] glyphs[i].cluster + offset <= u32::MAX
}

/// `moved` is `glyphs` with `offset` added to every cluster.
pub open spec fn clusters_moved(glyphs: Seq<ShapedGlyph>, offset: int, moved: Seq<ShapedGlyph>) -> bool {
    &&& moved.len() == glyphs.len()
    &&& forall|i: int|
        0 <= i < glyphs.len() ==> {
            &&& #[trigger] moved[i].cluster == glyphs[i].cluster + offset
            &&& moved[i].glyph_id == glyphs[i].glyph_id
            &&& moved[i].x_advance == glyphs[i].x_advance
            &&& moved[i].y_advance == glyphs[i].y_advance
            &&& moved[i].x_offset == glyphs[i].x_offset
            &&& moved[i].y_offset == glyphs[i].y_offset
        }
}

/// A `.notdef` glyph at any position of a shaping, the first included,
/// makes the shaping one that lacks glyphs; a shaping that lacks none has a
/// real glyph at every position.
pub proof fn lemma_notdef_anywhere(glyphs: Seq<ShapedGlyph>, i: int)
    ensures
        0 <= i < glyphs.len() && glyphs[i].glyph_id == 0 ==> has_notdef(glyphs),
        !has_notdef(glyphs) && 0 <= i < glyphs.len() ==> glyphs[i].glyph_id != 0,
{
}

/// Moving glyphs to their offsets in the whole text changes nothing but
/// their clusters, each by the same offset: ids, advances and offsets (such
/// as those that place a mark under its base) are kept.
pub proof fn lemma_moving_changes_only_clusters(
    glyphs: Seq<ShapedGlyph>,
    offset: int,
    moved: Seq<ShapedGlyph>,
    i: int,
)
    requires
        clusters_moved(glyphs, offset, moved),
        0 <= i < glyphs.len(),
    ensures
        moved.len() == glyphs.len(),
        moved[i].glyph_id == glyphs[i].glyph_id,
        moved[i].cluster == glyphs[i].cluster + offset,
        moved[i].x_advance == glyphs[i].x_advance,
        moved[i].y_advance == glyphs[i].y_advance,
        moved[i].x_offset == glyphs[i].x_offset,
        moved[i].y_offset == glyphs[i].y_offset,
{
    assert(moved[i].cluster == glyphs[i].cluster + offset);
}

/// Why a run could not be shaped.
#[derive(Debug, Clone, Copy, PartialEq, Eq, Structural)]
pub enum ShapeError {
    /// The font's face could not be parsed.
    NoFace,
    /// A glyph's cluster, moved to its offset in the whole text, does not fit
    /// in 32 bits.
    ClusterOverflow,
}

/// What shaping a run with one font gives.
#[derive(Debug, Clone)]
pub enum RunShaping {
    /// The font has a glyph for all of the run: the glyphs, their clusters
    /// moved to offsets in the whole text.
    Whole(Vec<ShapedGlyph>),
    /// The font lacks glyphs for part of the run: the coverage ranges of the
    /// run, as offsets into the run.
    Split(Vec<(usize, usize, bool)>),
}

/// Whether any glyph is `.notdef`.
fn find_notdef(glyphs: &Vec<ShapedGlyph>) -> (r: bool)
    ensures
        r == has_notdef(glyphs@),
{
    let n = glyphs.len();
    let mut i: usize = 0;
    while i < n
        invariant
            n == glyphs@.len(),
            i <= n,
            forall|k: int| 0 <= k < i ==> glyphs@[k].glyph_id != 0,
        decreases n - i,
    {
        if glyphs[i].glyph_id == 0 {
            assert(glyphs@[i as int].glyph_id == 0);
            return true;
        }
        i = i + 1;
    }
    false
}

/// `glyphs` with `offset` added to every cluster, or none when a cluster
/// would not fit in 32 bits.
fn move_clusters(glyphs: &Vec<ShapedGlyph>, offset: usize) -> (res: Option<Vec<ShapedGlyph>>)
    ensures
        res is Some <==> clusters_fit(glyphs@, offset as int),
        res matches Some(v) ==> clusters_moved(glyphs@, offset as int, v@),
{
    let n = glyphs.len();
    let mut moved: Vec<ShapedGlyph> = Vec::new();
    let mut i: usize = 0;
    while i < n
        invariant
            n == glyphs@.len(),
            i <= n,
            moved@.len() == i,
            clusters_fit(glyphs@.take(i as int), offset as int),
            forall|k: int|
                0 <= k < i ==> {
                    &&& #[trigger] moved@[k].cluster == glyphs@[k].cluster + offset
                    &&& moved@[k].glyph_id == glyphs@[k].glyph_id
                    &&& moved@[k].x_advance == glyphs@[k].x_advance
                    &&& moved@[k].y_advance == glyphs@[k].y_advance
                    &&& moved@[k].x_offset == glyphs@[k].x_offset
                    &&& moved@[k].y_offset == glyphs@[k].y_offset
                },
        decreases n - i,
    {
        let g = glyphs[i];
        if offset > u32::MAX as usize || g.cluster > u32::MAX - offset as u32 {
            assert(!(glyphs@[i as int].cluster + offset <= u32::MAX));
            return None;
        }
        moved.push(
            ShapedGlyph {
                glyph_id: g.glyph_id,
                cluster: g.cluster + offset as u32,
                x_advance: g.x_advance,
                y_advance: g.y_advance,
                x_offset: g.x_offset,
                y_offset: g.y_offset,
            },
        );
        assert forall|k: int| 0 <= k < i + 1 implies #[trigger] glyphs@.take(i + 1)[k].cluster + offset
            <= u32::MAX by {
            if k < i {
                assert(glyphs@.take(i + 1)[k] == glyphs@.take(i as int)[k]);
            }
        }
        i = i + 1;
    }
    assert(glyphs@.take(n as int) =~= glyphs@);
    Some(moved)
}

/// Shapes a run that starts at byte `run_start` of the whole text with one
/// font (face `face_index` of the font file `data`): when the font has a
/// glyph for every character, the glyphs with clusters moved to offsets in
/// the whole text; else the coverage ranges of the run, so that the caller
/// shapes the covered parts again with this font and hands the others to
/// the next font.
pub fn shape_run(data: &[u8], face_index: u32, text: &str, direction: Direction, run_start: usize) -> (res: Result<
    RunShaping,
    ShapeError,
>)
    ensures
        match shaping_of(data@, face_index, text@, direction) {
            None => res == Err::<RunShaping, ShapeError>(ShapeError::NoFace),
            Some(glyphs) => if has_notdef(glyphs) {
                res matches Ok(RunShaping::Split(ranges)) && coverage_ranges_of(
                    glyphs,
                    text.spec_bytes().len() as int,
                    ranges@,
                )
            } else if clusters_fit(glyphs, run_start as int) {
                res matches Ok(RunShaping::Whole(moved)) && clusters_moved(glyphs, run_start as int, moved@)
            } else {
                res == Err::<RunShaping, ShapeError>(ShapeError::ClusterOverflow)
            },
        },
        res matches Ok(RunShaping::Whole(moved)) ==> (shaping_of(data@, face_index, text@, direction) matches Some(
            glyphs,
        ) && moved@.len() == glyphs.len() && forall|i: int|
            0 <= i < glyphs.len() ==> {
                &&& #[trigger] moved@[i].glyph_id == glyphs[i].glyph_id
                &&& moved@[i].glyph_id != 0
                &&& moved@[i].cluster == glyphs[i].cluster + run_start
                &&& moved@[i].x_advance == glyphs[i].x_advance
                &&& moved@[i].y_advance == glyphs[i].y_advance
                &&& moved@[i].x_offset == glyphs[i].x_offset
                &&& moved@[i].y_offset == glyphs[i].y_offset
            }),
        (shaping_of(data@, face_index, text@, direction) matches Some(glyphs) && exists|i: int|
            0 <= i < glyphs.len() && #[trigger] glyphs[i].glyph_id == 0) ==> res matches Ok(
            RunShaping::Split(_),
        ),
{
    let glyphs = match rustybuzz_shape(data, face_index, text, direction) {
        Some(g) => g,
        None => return Err(ShapeError::NoFace),
    };
    if find_notdef(&glyphs) {
        return Ok(RunShaping::Split(coverage_ranges(text, glyphs.as_slice())));
    }
    match move_clusters(&glyphs, run_start) {
        Some(moved) => {
            proof {
                assert forall|i: int| 0 <= i < glyphs@.len() implies #[trigger] moved@[i].glyph_id
                    == glyphs@[i].glyph_id && moved@[i].glyph_id != 0 && moved@[i].cluster
                    == glyphs@[i].cluster + run_start by {
                    lemma_moving_changes_only_clusters(glyphs@, run_start as int, moved@, i);
                    lemma_notdef_anywhere(glyphs@, i);
                }
            }
            Ok(RunShaping::Whole(moved))
        },
        None => Err(ShapeError::ClusterOverflow),
    }
}

/// Shapes a part of a run that the font covers (face `face_index` of the
/// font file `data`), starting at byte `offset` of the whole text: all its
/// glyphs, `.notdef` or not, with clusters moved to offsets in the whole
/// text.
pub fn shape_covered(data: &[u8], face_index: u32, text: &str, direction: Direction, offset: usize) -> (res: Result<
    Vec<ShapedGlyph>,
    ShapeError,
>)
    ensures
        match shaping_of(data@, face_index, text@, direction) {
            None => res == Err::<Vec<ShapedGlyph>, ShapeError>(ShapeError::NoFace),
            Some(glyphs) => if clusters_fit(glyphs, offset as int) {
                res matches Ok(moved) && clusters_moved(glyphs, offset as int, moved@)
            } else {
                res == Err::<Vec<ShapedGlyph>, ShapeError>(ShapeError::ClusterOverflow)
            },
        },
        res matches Ok(moved) ==> (shaping_of(data@, face_index, text@, direction) matches Some(glyphs)
            && moved@.len() == glyphs.len() && forall|i: int|
            0 <= i < glyphs.len() ==> {
                &&& #[trigger] moved@[i].glyph_id == glyphs[i].glyph_id
                &&& moved@[i].cluster == glyphs[i].cluster + offset
                &&& moved@[i].x_advance == glyphs[i].x_advance
                &&& moved@[i].y_advance == glyphs[i].y_advance
                &&& moved@[i].x_offset == glyphs[i].x_offset
                &&& moved@[i].y_offset == glyphs[i].y_offset
            }),
{
    let glyphs = match rustybuzz_shape(data, face_index, text, direction) {
        Some(g) => g,
        None => return Err(ShapeError::NoFace),
    };
    match move_clusters(&glyphs, offset) {
        Some(moved) => {
            proof {
                assert forall|i: int| 0 <= i < glyphs@.len() implies #[trigger] moved@[i].glyph_id
                    == glyphs@[i].glyph_id && moved@[i].cluster == glyphs@[i].cluster + offset by {
                    lemma_moving_changes_only_clusters(glyphs@, offset as int, moved@, i);
                }
            }
            Ok(moved)
        },
        None => Err(ShapeError::ClusterOverflow),
    }
}

/// What becomes of one part of a run that a font split by coverage: its
/// byte range in the run, its byte offset in the whole text, and whether the
/// font shapes it again (it covers the part) or the part goes on to the next
/// font of the fallback chain.
#[derive(Debug, Clone, Copy, PartialEq, Eq, Structural)]
pub struct RangeTask {
    pub start: usize,
    pub end: usize,
    pub offset: usize,
    pub reshape: bool,
}

/// The task for coverage range `r` of a run that starts at byte `run_start`.
pub open spec fn task_for(r: (usize, usize, bool), run_start: usize) -> RangeTask {
    RangeTask { start: r.0, end: r.1, offset: (run_start + r.0) as usize, reshape: r.2 }
}

/// The tasks for the coverage ranges `ranges` of a run that starts at byte
/// `run_start`: one per non-empty range, in order.
pub open spec fn tasks_of(ranges: Seq<(usize, usize, bool)>, run_start: usize) -> Seq<RangeTask>
    decreases ranges.len(),
{
    if ranges.len() == 0 {
        Seq::empty()
    } else {
        let rest = tasks_of(ranges.drop_last(), run_start);
        let r = ranges.last();
        if r.0 < r.1 {
            rest.push(task_for(r, run_start))
        } else {
            rest
        }
    }
}

/// Decides what becomes of each part of a run that a font split by
/// coverage: empty ranges are skipped, covered ones are shaped again with
/// the font, the others go to the next font; each part keeps its offset in
/// the whole text.
pub fn range_tasks(ranges: &[(usize, usize, bool)], run_start: usize) -> (tasks: Vec<RangeTask>)
    requires
        forall|j: int|
            0 <= j < ranges@.len() && #[trigger] ranges@[j].0 < ranges@[j].1 ==> run_start
                + ranges@[j].0 <= usize::MAX,
    ensures
        tasks@ == tasks_of(ranges@, run_start),
{
    let n = ranges.len();
    let mut tasks: Vec<RangeTask> = Vec::new();
    let mut i: usize = 0;
    while i < n
        invariant
            n == ranges@.len(),
            i <= n,
            forall|j: int|
                0 <= j < ranges@.len() && #[trigger] ranges@[j].0 < ranges@[j].1 ==> run_start
                    + ranges@[j].0 <= usize::MAX,
            tasks@ == tasks_of(ranges@.take(i as int), run_start),
        decreases n - i,
    {
        let (start, end, covered) = ranges[i];
        assert(ranges@.take(i + 1).drop_last() =~= ranges@.take(i as int));
        assert(ranges@.take(i + 1).last() == ranges@[i as int]);
        if start < end {
            tasks.push(RangeTask { start, end, offset: run_start + start, reshape: covered });
        }
        i = i + 1;
    }
    assert(ranges@.take(n as int) =~= ranges@);
    tasks
}

/// Tasks for non-empty ranges are the ranges' own tasks, one each.
proof fn lemma_tasks_of_nonempty(ranges: Seq<(usize, usize, bool)>, run_start: usize)
    requires
        forall|j: int| 0 <= j < ranges.len() ==> #[trigger] ranges[j].0 < ranges[j].1,
    ensures
        tasks_of(ranges, run_start).len() == ranges.len(),
        forall|j: int|
            0 <= j < ranges.len() ==> #[trigger] tasks_of(ranges, run_start)[j] == task_for(
                ranges[j],
                run_start,
            ),
    decreases ranges.len(),
{
    if ranges.len() > 0 {
        let init = ranges.drop_last();
        assert forall|j: int| 0 <= j < init.len() implies #[trigger] init[j].0 < init[j].1 by {
            assert(init[j] == ranges[j]);
        }
        lemma_tasks_of_nonempty(init, run_start);
        assert forall|j: int| 0 <= j < ranges.len() implies #[trigger] tasks_of(ranges, run_start)[j]
            == task_for(ranges[j], run_start) by {
            if j < init.len() {
                assert(init[j] == ranges[j]);
            }
        }
    }
}

/// When a font splits a run of `text_len` bytes by coverage, the tasks cut
/// the run from its first cluster to its end into non-empty parts that
/// follow each other without gap or overlap and alternate between the font
/// and the next one, each at its offset in the whole text: every byte of the
/// run from the first cluster on goes to exactly one font. (Shaping gives
/// clusters within the run; the law is stated for those.)
pub proof fn lemma_tasks_cover_run(
    glyphs: Seq<ShapedGlyph>,
    text_len: int,
    ranges: Seq<(usize, usize, bool)>,
    run_start: usize,
)
    requires
        coverage_ranges_of(glyphs, text_len, ranges),
        forall|g: int| 0 <= g < glyphs.len() ==> #[trigger] glyphs[g].cluster <= text_len,
        0 <= text_len,
        run_start + text_len <= usize::MAX,
    ensures
        ({
            let tasks = tasks_of(ranges, run_start);
            &&& forall|j: int| 0 <= j < tasks.len() ==> #[trigger] tasks[j].start < tasks[j].end
            &&& forall|j: int, k: int|
                #![trigger tasks[j], tasks[k]]
                0 <= j && k == j + 1 && k < tasks.len() ==> tasks[j].end == tasks[k].start
                    && tasks[j].reshape != tasks[k].reshape
            &&& forall|j: int|
                0 <= j < tasks.len() ==> #[trigger] tasks[j].offset == run_start + tasks[j].start
            &&& ranges[0].0 < text_len ==> {
                &&& tasks.len() > 0
                &&& tasks[0].start == ranges[0].0
                &&& tasks[tasks.len() - 1].end == text_len
            }
        }),
{
    let m = ranges.len();
    assert(m > 0);
    assert(ranges[m - 1].1 == text_len);
    // every range but the last is non-empty
    assert forall|j: int| 0 <= j < m - 1 implies #[trigger] ranges[j].0 < ranges[j].1 by {
        if glyphs.len() > 0 {
            assert(ranges[j].1 == ranges[j + 1].0 && ranges[j].0 < ranges[j + 1].0);
        }
    }
    let kept = if ranges[m - 1].0 < ranges[m - 1].1 {
        ranges
    } else {
        ranges.drop_last()
    };
    assert forall|j: int| 0 <= j < kept.len() implies #[trigger] kept[j].0 < kept[j].1 by {
        assert(kept[j] == ranges[j]);
    }
    assert(tasks_of(ranges, run_start) == tasks_of(kept, run_start));
    lemma_tasks_of_nonempty(kept, run_start);
    let tasks = tasks_of(ranges, run_start);
    assert forall|j: int| 0 <= j < m implies #[trigger] ranges[j].0 <= text_len by {
        if glyphs.len() > 0 {
            let g = choose|g: int| 0 <= g < glyphs.len() && #[trigger] glyphs[g].cluster == ranges[j].0;
            assert(glyphs[g].cluster <= text_len);
        }
    }
    assert forall|j: int| 0 <= j < tasks.len() implies #[trigger] tasks[j].offset == run_start
        + tasks[j].start by {
        assert(tasks[j] == task_for(kept[j], run_start));
        assert(kept[j] == ranges[j]);
    }
    assert forall|j: int, k: int|
        #![trigger tasks[j], tasks[k]]
        0 <= j && k == j + 1 && k < tasks.len() implies tasks[j].end == tasks[k].start
        && tasks[j].reshape != tasks[k].reshape by {
        assert(tasks[j] == task_for(kept[j], run_start));
        assert(tasks[k] == task_for(kept[k], run_start));
        assert(kept[j] == ranges[j] && kept[k] == ranges[k]);
        assert(ranges[j].1 == ranges[k].0 && ranges[j].2 != ranges[k].2);
    }
    if ranges[0].0 < text_len {
        if m == 1 {
            assert(kept =~= ranges);
        } else {
            assert(ranges[0].0 < ranges[0].1);
        }
        assert(kept.len() > 0);
        assert(kept[0] == ranges[0]);
        if ranges[m - 1].0 < ranges[m - 1].1 {
            assert(kept[kept.len() - 1] == ranges[m - 1]);
        } else {
            assert(kept[kept.len() - 1] == ranges[m - 2]);
            assert(ranges[m - 2].1 == ranges[m - 1].0);
            let g = choose|g: int| 0 <= g < glyphs.len() && #[trigger] glyphs[g].cluster == ranges[m - 1].0;
            assert(glyphs[g].cluster <= text_len);
            assert(ranges[m - 1].0 == text_len);
        }
    }
}

} // verus!
