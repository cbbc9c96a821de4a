use vstd::prelude::*;
use vstd::string::StringSliceAdditionalSpecFns;
use vstd::utf8::*;

use crate::types::{level_direction, Direction};

verus! {

broadcast use vstd::utf8::encode_utf8_valid_utf8;

/// Metrics for a rasterized glyph: dimensions and pixel-space bearing.
#[derive(Debug, Clone, Copy)]
pub struct RasterizedGlyph {
    pub width: u32,
    pub height: u32,
    pub bearing_x: i32,
    pub bearing_y: i32,
}

/// Lays out text into positioned glyph runs.
///
/// Combines font matching, bidirectional text resolution, Unicode line
/// breaking, shaping and glyph rasterization.
#[derive(Debug, Clone, Copy)]
pub struct TextLayouter;

impl TextLayouter {
    /// Creates a new `TextLayouter`.
    pub fn new() -> (l: Self)
        ensures
            l == TextLayouter,
    {
        TextLayouter
    }
}

impl Default for TextLayouter {
    fn default() -> (l: Self)
        ensures
            l == TextLayouter,
    {
        TextLayouter::new()
    }
}

/// A contiguous span of a paragraph (byte offsets `start..end`) that shares
/// one resolved direction.
#[derive(Debug, Clone, Copy, PartialEq, Eq, Structural)]
pub struct VisualRun {
    pub start: usize,
    pub end: usize,
    pub direction: Direction,
}

/// The resolved direction of the character that starts at byte `i`: the
/// parity of its embedding level (a missing level counts as 0).
pub open spec fn char_direction(levels: Seq<u8>, i: int) -> Direction {
    if 0 <= i < levels.len() {
        level_direction(levels[i])
    } else {
        Direction::Ltr
    }
}

/// Whether byte `i` of the UTF-8 sequence `bytes` begins a character: it
/// exists and is not a continuation byte.
pub open spec fn starts_char(bytes: Seq<u8>, i: int) -> bool {
    0 <= i < bytes.len() && !is_continuation_byte(bytes[i])
}

/// In the bytes of a string, the character starts are exactly the character
/// boundaries short of the end.
pub proof fn lemma_starts_char_is_boundary(text: &str, i: int)
    requires
        0 <= i < text.spec_bytes().len(),
    ensures
        starts_char(text.spec_bytes(), i) <==> is_char_boundary(text.spec_bytes(), i),
{
    is_char_boundary_iff_not_is_continuation_byte(text.spec_bytes(), i);
}

/// `runs` cut the bytes `0..n` into non-empty, adjacent spans in order.
pub open spec fn runs_tile(runs: Seq<VisualRun>, n: int) -> bool {
    &&& runs.len() > 0
    &&& runs[0].start == 0
    &&& runs[runs.len() - 1].end == n
    &&& forall|j: int| 0 <= j < runs.len() ==> #[trigger] runs[j].start < runs[j].end
    &&& forall|j: int, k: int|
        #![trigger runs[j], runs[k]]
        0 <= j && k == j + 1 && k < runs.len() ==> runs[j].end == runs[k].start
}

/// `runs` are the maximal spans of equal character direction of the text
/// whose UTF-8 bytes are `bytes`: they tile the text, start at character
/// starts, hold only characters of their own direction, and neighbours
/// differ in direction. Empty text has no runs.
pub open spec fn visual_runs_of(
    bytes: Seq<u8>,
    levels: Seq<u8>,
    runs: Seq<VisualRun>,
) -> bool {
    if bytes.len() == 0 {
        runs.len() == 0
    } else {
        &&& runs_tile(runs, bytes.len() as int)
        &&& forall|j: int| 0 <= j < runs.len() ==> starts_char(bytes, #[trigger] runs[j].start as int)
        &&& forall|j: int, i: int|
            #![trigger runs[j], starts_char(bytes, i)]
            0 <= j < runs.len() && runs[j].start <= i < runs[j].end && starts_char(bytes, i)
                ==> char_direction(levels, i) == runs[j].direction
        &&& forall|j: int, k: int|
            #![trigger runs[j], runs[k]]
            0 <= j && k == j + 1 && k < runs.len() ==> runs[j].direction != runs[k].direction
    }
}

/// Splits a paragraph into visual runs based on bidi levels.
///
/// Each run is a contiguous span of text that shares the same resolved
/// direction (LTR or RTL), which comes from the embedding levels of its
/// characters, the first character's included, whatever the paragraph's
/// base direction.
/// Adjacent runs with the same direction are merged.
pub fn build_visual_runs(text: &str, base_direction: Direction, levels: &[u8]) -> (runs: Vec<
    VisualRun,
>)
    ensures
        visual_runs_of(text.spec_bytes(), levels@, runs@),
{
    let bytes = text.as_bytes();
    let n = bytes.len();
    let mut runs: Vec<VisualRun> = Vec::new();
    if n == 0 {
        return runs;
    }
    proof {
        is_char_boundary_start_end_of_seq(bytes@);
        lemma_starts_char_is_boundary(text, 0);
    }
    let mut run_start: usize = 0;
    let mut current_dir = if base_direction.is_rtl() {
        Direction::Rtl
    } else {
        Direction::Ltr
    };
    let nlev = levels.len();
    let mut i: usize = 0;
    while i < n
        invariant
            n == bytes@.len(),
            n > 0,
            nlev == levels@.len(),
            run_start <= i <= n,
            run_start < n,
            starts_char(bytes@, run_start as int),
            run_start == i ==> i == 0,
            runs@.len() == 0 ==> run_start == 0,
            runs@.len() > 0 ==> {
                &&& runs_tile(runs@, run_start as int)
                &&& runs@[runs@.len() - 1].direction != current_dir
            },
            forall|j: int|
                0 <= j < runs@.len() ==> starts_char(bytes@, #[trigger] runs@[j].start as int),
            forall|j: int, k: int|
                #![trigger runs@[j], starts_char(bytes@, k)]
                0 <= j < runs@.len() && runs@[j].start <= k < runs@[j].end && starts_char(
                    bytes@,
                    k,
                ) ==> char_direction(levels@, k) == runs@[j].direction,
            forall|j: int, k: int|
                #![trigger runs@[j], runs@[k]]
                0 <= j && k == j + 1 && k < runs@.len() ==> runs@[j].direction != runs@[k].direction,
            forall|k: int|
                run_start <= k < i && #[trigger] starts_char(bytes@, k) ==> char_direction(levels@, k) == current_dir,
        decreases n - i,
    {
        let b = bytes[i];
        if b < 0x80u8 || b > 0xbfu8 {
            let level: u8 = if i < nlev {
                levels[i]
            } else {
                0
            };
            let dir = if level % 2 == 1 {
                Direction::Rtl
            } else {
                Direction::Ltr
            };
            if dir != current_dir && i == 0 {
                current_dir = dir;
            } else if dir != current_dir {
                let ghost old_runs = runs@;
                runs.push(VisualRun { start: run_start, end: i, direction: current_dir });
                proof {
                    assert forall|j: int, k: int|
                        #![trigger runs@[j], starts_char(bytes@, k)]
                        0 <= j < runs@.len() && runs@[j].start <= k < runs@[j].end
                            && starts_char(bytes@, k) implies char_direction(levels@, k) == runs@[j].direction by {
                        if j < old_runs.len() {
                            assert(runs@[j] == old_runs[j]);
                        }
                    }
                }
                run_start = i;
                current_dir = dir;
            }
        }
        i = i + 1;
    }
    let ghost old_runs = runs@;
    runs.push(VisualRun { start: run_start, end: n, direction: current_dir });
    proof {
        assert forall|j: int, k: int|
            #![trigger runs@[j], starts_char(bytes@, k)]
            0 <= j < runs@.len() && runs@[j].start <= k < runs@[j].end && starts_char(
                bytes@,
                k,
            ) implies char_direction(levels@, k) == runs@[j].direction by {
            if j < old_runs.len() {
                assert(runs@[j] == old_runs[j]);
            }
        }
    }
    runs
}

/// A glyph as shaping produces it: its glyph id (0 is the `.notdef` glyph,
/// i.e. the font has no glyph for the text), the byte offset of its cluster
/// in the shaped text, and its advances and offsets in font units.
#[derive(Debug, Clone, Copy, PartialEq, Eq, Structural)]
pub struct ShapedGlyph {
    pub glyph_id: u32,
    pub cluster: u32,
    pub x_advance: i32,
    pub y_advance: i32,
    pub x_offset: i32,
    pub y_offset: i32,
}

/// `k` is the index of the first glyph whose cluster is `c`.
pub open spec fn first_of_cluster(glyphs: Seq<ShapedGlyph>, c: int, k: int) -> bool {
    &&& 0 <= k < glyphs.len()
    &&& glyphs[k].cluster == c
    &&& forall|m: int| 0 <= m < k ==> #[trigger] glyphs[m].cluster != c
}

/// `entries` lists each cluster of `glyphs` once, in increasing order, with
/// the coverage of the first glyph of that cluster: `first[p]` is the index
/// of the first glyph of entry `p`'s cluster, and `slot[k]` the entry of
/// glyph `k`'s cluster.
pub open spec fn distinct_cluster_entries(
    glyphs: Seq<ShapedGlyph>,
    entries: Seq<(usize, bool)>,
    first: Seq<int>,
    slot: Seq<int>,
) -> bool {
    &&& first.len() == entries.len()
    &&& slot.len() == glyphs.len()
    &&& forall|p: int, q: int|
        #![trigger entries[p], entries[q]]
        0 <= p < q < entries.len() ==> entries[p].0 < entries[q].0
    &&& forall|p: int|
        0 <= p < entries.len() ==> {
            &&& first_of_cluster(glyphs, entries[p].0 as int, #[trigger] first[p])
            &&& entries[p].1 == (glyphs[first[p]].glyph_id != 0)
        }
    &&& forall|k: int|
        0 <= k < glyphs.len() ==> {
            &&& 0 <= #[trigger] slot[k] < entries.len()
            &&& entries[slot[k]].0 == glyphs[k].cluster
        }
}

/// Range `j` of `ranges` is the one that holds byte offset `c`: it starts at
/// or before `c` and the next range starts after `c`.
pub open spec fn range_holds(ranges: Seq<(usize, usize, bool)>, j: int, c: int) -> bool {
    &&& 0 <= j < ranges.len()
    &&& ranges[j].0 <= c
    &&& (j == ranges.len() - 1 || c < ranges[j].1)
}

/// `ranges` are the coverage ranges of `glyphs` in a text of `text_len`
/// bytes: without glyphs, one uncovered range over the whole text; else
/// ranges that start at the smallest cluster, follow each other, end at
/// `text_len`, alternate in coverage, start at clusters, and give every
/// cluster the coverage of its first glyph.
pub open spec fn coverage_ranges_of(
    glyphs: Seq<ShapedGlyph>,
    text_len: int,
    ranges: Seq<(usize, usize, bool)>,
) -> bool {
    if glyphs.len() == 0 {
        ranges == seq![(0usize, text_len as usize, false)]
    } else {
        &&& ranges.len() > 0
        &&& ranges[ranges.len() - 1].1 == text_len
        &&& forall|j: int, k: int|
            #![trigger ranges[j], ranges[k]]
            0 <= j && k == j + 1 && k < ranges.len() ==> {
                &&& ranges[j].1 == ranges[k].0
                &&& ranges[j].0 < ranges[k].0
                &&& ranges[j].2 != ranges[k].2
            }
        &&& forall|j: int|
            #![trigger ranges[j]]
            0 <= j < ranges.len() ==> exists|g: int|
                0 <= g < glyphs.len() && #[trigger] glyphs[g].cluster == ranges[j].0
        &&& forall|g: int| 0 <= g < glyphs.len() ==> ranges[0].0 <= #[trigger] glyphs[g].cluster
        &&& forall|k: int, j: int|
            #![trigger first_of_cluster(glyphs, glyphs[k].cluster as int, k), range_holds(ranges, j, glyphs[k].cluster as int)]
            first_of_cluster(glyphs, glyphs[k].cluster as int, k) && range_holds(
                ranges,
                j,
                glyphs[k].cluster as int,
            ) ==> ranges[j].2 == (glyphs[k].glyph_id != 0)
    }
}

/// Lists the distinct clusters of `glyphs` in increasing order, each with
/// the coverage of its first glyph (a stable sort followed by removal of
/// repeated clusters).
fn distinct_clusters(glyphs: &[ShapedGlyph]) -> (res: (Vec<(usize, bool)>, Ghost<Seq<int>>, Ghost<Seq<int>>))
    ensures
        distinct_cluster_entries(glyphs@, res.0@, res.1@, res.2@),
        glyphs@.len() > 0 ==> res.0@.len() > 0,
{
    let n = glyphs.len();
    let mut entries: Vec<(usize, bool)> = Vec::new();
    let ghost mut src: Seq<int> = Seq::empty();
    let ghost mut pos_of: Seq<int> = Seq::empty();
    let mut i: usize = 0;
    while i < n
        invariant
            n == glyphs@.len(),
            i <= n,
            src.len() == entries@.len(),
            pos_of.len() == i,
            forall|p: int, q: int|
                #![trigger entries@[p], entries@[q]]
                0 <= p < q < entries@.len() ==> entries@[p].0 < entries@[q].0,
            forall|p: int|
                0 <= p < entries@.len() ==> {
                    &&& 0 <= #[trigger] src[p] < i
                    &&& first_of_cluster(glyphs@, entries@[p].0 as int, src[p])
                    &&& entries@[p].1 == (glyphs@[src[p]].glyph_id != 0)
                },
            forall|k: int|
                0 <= k < i ==> {
                    &&& 0 <= #[trigger] pos_of[k] < entries@.len()
                    &&& entries@[pos_of[k]].0 == glyphs@[k].cluster
                },
            i > 0 ==> entries@.len() > 0,
        decreases n - i,
    {
        let c = glyphs[i].cluster as usize;
        let covered = glyphs[i].glyph_id != 0;
        let len = entries.len();
        let mut pos: usize = 0;
        while pos < len && entries[pos].0 < c
            invariant
                len == entries@.len(),
                pos <= len,
                forall|p: int| 0 <= p < pos ==> #[trigger] entries@[p].0 < c,
            decreases len - pos,
        {
            pos = pos + 1;
        }
        if pos < len && entries[pos].0 == c {
            proof {
                pos_of = pos_of.push(pos as int);
            }
        } else {
            proof {
                assert forall|m: int| 0 <= m < i implies #[trigger] glyphs@[m].cluster != c by {
                    let pm = pos_of[m];
                    if pm < pos {
                        assert(entries@[pm].0 < c);
                    } else if pm > pos {
                        assert(entries@[pos as int].0 < entries@[pm].0);
                    }
                }
                assert(first_of_cluster(glyphs@, c as int, i as int));
            }
            let ghost old_entries = entries@;
            entries.insert(pos, (c, covered));
            proof {
                src = src.insert(pos as int, i as int);
                pos_of = Seq::new(i as nat, |k: int| if pos_of[k] >= pos { pos_of[k] + 1 } else { pos_of[k] }).push(pos as int);
                assert forall|p: int, q: int|
                    #![trigger entries@[p], entries@[q]]
                    0 <= p < q < entries@.len() implies entries@[p].0 < entries@[q].0 by {
                    if p < pos && q > pos {
                        assert(old_entries[p].0 < c);
                    }
                    if p == pos && q > pos {
                        assert(old_entries[q - 1].0 >= c);
                        assert(old_entries[q - 1].0 != c || q - 1 != pos);
                        if q - 1 > pos {
                            assert(old_entries[pos as int].0 < old_entries[q - 1].0);
                        }
                    }
                    if p < pos && q == pos {
                        assert(old_entries[p].0 < c);
                    }
                }
            }
        }
        i = i + 1;
    }
    (entries, Ghost(src), Ghost(pos_of))
}

/// The entry where the group after group `j` starts; `cur` for the last one.
pub open spec fn group_next(gs: Seq<int>, cur: int, j: int) -> int {
    if j + 1 < gs.len() {
        gs[j + 1]
    } else {
        cur
    }
}

/// Cuts the sorted cluster `entries` into maximal groups of equal coverage;
/// group `j` starts at entry `gs[j]` and becomes the range from its first
/// cluster to the next group's first cluster (the last one to `text_len`).
#[verifier::spinoff_prover]
fn group_coverage(entries: &Vec<(usize, bool)>, text_len: usize) -> (res: (
    Vec<(usize, usize, bool)>,
    Ghost<Seq<int>>,
))
    requires
        entries@.len() > 0,
    ensures
        res.0@.len() == res.1@.len(),
        res.0@.len() > 0,
        res.1@[0] == 0,
        forall|j: int| 0 <= j < res.1@.len() ==> 0 <= #[trigger] res.1@[j] < entries@.len(),
        forall|j: int, k: int|
            #![trigger res.1@[j], res.1@[k]]
            0 <= j < k < res.1@.len() ==> res.1@[j] < res.1@[k],
        forall|j: int|
            #![trigger res.0@[j]]
            0 <= j < res.0@.len() ==> {
                &&& res.0@[j].0 == entries@[res.1@[j]].0
                &&& res.0@[j].2 == entries@[res.1@[j]].1
                &&& (j + 1 < res.0@.len() ==> res.0@[j].1 == entries@[res.1@[j + 1]].0)
            },
        res.0@[res.0@.len() - 1].1 == text_len,
        forall|j: int, k: int|
            #![trigger res.0@[j], res.0@[k]]
            0 <= j && k == j + 1 && k < res.0@.len() ==> res.0@[j].2 != res.0@[k].2,
        forall|q: int, j: int|
            #![trigger entries@[q], res.1@[j]]
            0 <= j < res.1@.len() && res.1@[j] <= q < group_next(res.1@, entries@.len() as int, j)
                ==> entries@[q].1 == res.0@[j].2,
{
    let len = entries.len();
    let mut ranges: Vec<(usize, usize, bool)> = Vec::new();
    let mut start = entries[0].0;
    let mut covered = entries[0].1;
    let ghost mut gs: Seq<int> = Seq::empty();
    let ghost mut cur: int = 0;
    let mut p: usize = 1;
    while p < len
        invariant
            len == entries@.len(),
            ranges@.len() == gs.len(),
            0 <= cur < p <= len,
            start == entries@[cur].0,
            covered == entries@[cur].1,
            gs.len() > 0 ==> gs[0] == 0,
            gs.len() == 0 ==> cur == 0,
            forall|j: int| 0 <= j < gs.len() ==> 0 <= #[trigger] gs[j] < cur,
            forall|j: int, k: int|
                #![trigger gs[j], gs[k]]
                0 <= j < k < gs.len() ==> gs[j] < gs[k],
            forall|j: int|
                0 <= j < ranges@.len() ==> {
                    &&& #[trigger] ranges@[j].0 == entries@[gs[j]].0
                    &&& ranges@[j].2 == entries@[gs[j]].1
                    &&& ranges@[j].1 == entries@[group_next(gs, cur, j)].0
                },
            forall|j: int, k: int|
                #![trigger ranges@[j], ranges@[k]]
                0 <= j && k == j + 1 && k < ranges@.len() ==> ranges@[j].2 != ranges@[k].2,
            gs.len() > 0 ==> ranges@[ranges@.len() - 1].2 != covered,
            forall|q: int, j: int|
                #![trigger entries@[q], gs[j]]
                0 <= j < gs.len() && gs[j] <= q < group_next(gs, cur, j) ==> entries@[q].1
                    == ranges@[j].2,
            forall|q: int| cur <= q < p ==> #[trigger] entries@[q].1 == covered,
        decreases len - p,
    {
        if entries[p].1 != covered {
            let ghost old_ranges = ranges@;
            let ghost old_gs = gs;
            let ghost old_cur = cur;
            ranges.push((start, entries[p].0, covered));
            proof {
                gs = gs.push(cur);
                cur = p as int;
                assert forall|j: int|
                    0 <= j < ranges@.len() implies {
                        &&& #[trigger] ranges@[j].0 == entries@[gs[j]].0
                        &&& ranges@[j].2 == entries@[gs[j]].1
                        &&& ranges@[j].1 == entries@[group_next(gs, cur, j)].0
                    } by {
                    if j < old_ranges.len() {
                        assert(ranges@[j] == old_ranges[j]);
                        assert(gs[j] == old_gs[j]);
                        if j + 1 < old_gs.len() {
                            assert(group_next(gs, cur, j) == group_next(old_gs, old_cur, j));
                        } else {
                            assert(group_next(gs, cur, j) == old_cur);
                        }
                    }
                }
                assert forall|q: int, j: int|
                    #![trigger entries@[q], gs[j]]
                    0 <= j < gs.len() && gs[j] <= q < group_next(gs, cur, j) implies entries@[q].1
                        == ranges@[j].2 by {
                    if j < old_gs.len() {
                        assert(gs[j] == old_gs[j]);
                        assert(ranges@[j] == old_ranges[j]);
                        if j + 1 < old_gs.len() {
                            assert(group_next(gs, cur, j) == group_next(old_gs, old_cur, j));
                        } else {
                            assert(group_next(gs, cur, j) == old_cur);
                        }
                    } else {
                        assert(gs[j] == old_cur);
                    }
                }
            }
            start = entries[p].0;
            covered = entries[p].1;
        }
        p = p + 1;
    }
    let ghost old_ranges = ranges@;
    let ghost old_gs = gs;
    ranges.push((start, text_len, covered));
    proof {
        let old_cur = cur;
        gs = gs.push(cur);
        assert forall|j: int|
            #![trigger ranges@[j]]
            0 <= j < ranges@.len() implies {
                &&& ranges@[j].0 == entries@[gs[j]].0
                &&& ranges@[j].2 == entries@[gs[j]].1
                &&& (j + 1 < ranges@.len() ==> ranges@[j].1 == entries@[gs[j + 1]].0)
            } by {
            if j < old_ranges.len() {
                assert(ranges@[j] == old_ranges[j]);
                assert(gs[j] == old_gs[j]);
                assert(old_ranges[j].0 == entries@[old_gs[j]].0);
                assert(old_ranges[j].1 == entries@[group_next(old_gs, old_cur, j)].0);
                if j + 1 < old_gs.len() {
                    assert(gs[j + 1] == old_gs[j + 1]);
                } else {
                    assert(gs[j + 1] == old_cur);
                }
            } else {
                assert(gs[j] == old_cur);
            }
        }
        assert(gs[0] == 0);
        assert(forall|j: int| 0 <= j < gs.len() ==> 0 <= #[trigger] gs[j] < entries@.len());
        assert forall|j: int, k: int|
            #![trigger gs[j], gs[k]]
            0 <= j < k < gs.len() implies gs[j] < gs[k] by {
            if k == gs.len() - 1 {
                assert(gs[j] == old_gs[j]);
            } else {
                assert(gs[j] == old_gs[j]);
                assert(gs[k] == old_gs[k]);
            }
        }
        assert forall|j: int, k: int|
            #![trigger ranges@[j], ranges@[k]]
            0 <= j && k == j + 1 && k < ranges@.len() implies ranges@[j].2 != ranges@[k].2 by {
            assert(ranges@[j] == old_ranges[j]);
            if k < old_ranges.len() {
                assert(ranges@[k] == old_ranges[k]);
            }
        }
        assert forall|q: int, j: int|
            #![trigger entries@[q], gs[j]]
            0 <= j < gs.len() && gs[j] <= q < group_next(gs, entries@.len() as int, j) implies entries@[q].1
                == ranges@[j].2 by {
            if j < old_gs.len() {
                assert(gs[j] == old_gs[j]);
                assert(ranges@[j] == old_ranges[j]);
                if j + 1 < old_gs.len() {
                    assert(group_next(gs, entries@.len() as int, j) == group_next(old_gs, old_cur, j));
                } else {
                    assert(group_next(gs, entries@.len() as int, j) == old_cur);
                }
            } else {
                assert(gs[j] == old_cur);
            }
        }
    }
    (ranges, Ghost(gs))
}

/// Two first glyphs of the same cluster are the same glyph.
proof fn lemma_first_unique(glyphs: Seq<ShapedGlyph>, c: int, k1: int, k2: int)
    requires
        first_of_cluster(glyphs, c, k1),
        first_of_cluster(glyphs, c, k2),
    ensures
        k1 == k2,
{
    if k1 < k2 {
        assert(glyphs[k1].cluster != c);
    } else if k2 < k1 {
        assert(glyphs[k2].cluster != c);
    }
}

/// Finds contiguous byte ranges with and without coverage, based on
/// `.notdef` glyphs.
///
/// Returns `(start, end, covered)` triples aligned to the glyph cluster
/// boundaries of `glyphs`; a cluster counts as covered when the first of its
/// glyphs is not `.notdef`.
pub fn coverage_ranges(text: &str, glyphs: &[ShapedGlyph]) -> (ranges: Vec<(usize, usize, bool)>)
    ensures
        coverage_ranges_of(glyphs@, text.spec_bytes().len() as int, ranges@),
{
    let text_len = text.as_bytes().len();
    let (entries, Ghost(first), Ghost(slot)) = distinct_clusters(glyphs);
    if entries.len() == 0 {
        proof {
            if glyphs@.len() > 0 {
                assert(0 <= slot[0] < entries@.len());
            }
        }
        let mut whole: Vec<(usize, usize, bool)> = Vec::new();
        whole.push((0, text_len, false));
        assert(whole@ =~= seq![(0usize, text_len, false)]);
        return whole;
    }
    let (ranges, Ghost(gs)) = group_coverage(&entries, text_len);
    proof {
        let e = entries@;
        let r = ranges@;
        assert forall|j: int|
            #![trigger r[j]]
            0 <= j < r.len() implies exists|g: int|
                0 <= g < glyphs@.len() && #[trigger] glyphs@[g].cluster == r[j].0 by {
            let p = gs[j];
            assert(first_of_cluster(glyphs@, e[p].0 as int, first[p]));
            assert(glyphs@[first[p]].cluster == r[j].0);
        }
        assert forall|g: int| 0 <= g < glyphs@.len() implies r[0].0 <= #[trigger] glyphs@[g].cluster by {
            let q = slot[g];
            if q > 0 {
                assert(e[0].0 < e[q].0);
            }
        }
        assert forall|j: int, k: int|
            #![trigger r[j], r[k]]
            0 <= j && k == j + 1 && k < r.len() implies {
                &&& r[j].1 == r[k].0
                &&& r[j].0 < r[k].0
                &&& r[j].2 != r[k].2
            } by {
            assert(gs[j] < gs[k]);
            assert(e[gs[j]].0 < e[gs[k]].0);
        }
        assert forall|k: int, j: int|
            #![trigger first_of_cluster(glyphs@, glyphs@[k].cluster as int, k), range_holds(r, j, glyphs@[k].cluster as int)]
            first_of_cluster(glyphs@, glyphs@[k].cluster as int, k) && range_holds(
                r,
                j,
                glyphs@[k].cluster as int,
            ) implies r[j].2 == (glyphs@[k].glyph_id != 0) by {
            let c = glyphs@[k].cluster as int;
            let q = slot[k];
            assert(e[q].0 == c);
            assert(first_of_cluster(glyphs@, e[q].0 as int, first[q]));
            lemma_first_unique(glyphs@, c, k, first[q]);
            if q < gs[j] {
                assert(e[q].0 < e[gs[j]].0);
            }
            if j + 1 < r.len() && q >= gs[j + 1] {
                if q > gs[j + 1] {
                    assert(e[gs[j + 1]].0 < e[q].0);
                }
            }
            assert(gs[j] <= q < group_next(gs, e.len() as int, j));
        }
    }
    ranges
}

/// A font tried by the shaping fallback chain: one of the fonts given by
/// key, or one of the font families, each by its position in its list.
#[derive(Debug, Clone, Copy, PartialEq, Eq, Structural)]
pub enum FallbackFont {
    Exact(usize),
    Family(usize),
}

/// The font tried at `level` of the fallback chain over `exact_count` fonts
/// given by key and `family_count` families: the keyed fonts first, in
/// order, then the families, in order.
pub open spec fn chain_font(exact_count: usize, family_count: usize, level: usize) -> Option<FallbackFont> {
    if level < exact_count {
        Some(FallbackFont::Exact(level))
    } else if level - exact_count < family_count {
        Some(FallbackFont::Family((level - exact_count) as usize))
    } else {
        None
    }
}

/// The font that level `level` of the shaping fallback chain tries. A level
/// whose font cannot be loaded passes the whole text to the next level; a
/// level whose font lacks glyphs for part of the text passes that part to
/// the next level; past the last font, nothing is shaped.
pub fn fallback_font(exact_count: usize, family_count: usize, level: usize) -> (font: Option<FallbackFont>)
    ensures
        font == chain_font(exact_count, family_count, level),
{
    if level < exact_count {
        Some(FallbackFont::Exact(level))
    } else if level - exact_count < family_count {
        Some(FallbackFont::Family(level - exact_count))
    } else {
        None
    }
}

/// Every font of the chain is tried at exactly one level: the keyed font
/// `i` at level `i`, family `j` right after all keyed fonts, and no level
/// past the last family tries anything.
pub proof fn lemma_chain_tries_each_font_once(exact_count: usize, family_count: usize, level: usize)
    ensures
        chain_font(exact_count, family_count, level) matches Some(FallbackFont::Exact(i)) ==> i == level
            && i < exact_count,
        chain_font(exact_count, family_count, level) matches Some(FallbackFont::Family(j)) ==> j
            + exact_count == level && j < family_count,
        chain_font(exact_count, family_count, level) is None <==> level >= exact_count + family_count,
{
}

/// The cluster that follows fragment `i`: the next fragment's cluster, or
/// the paragraph end after the last fragment.
pub open spec fn next_cluster(clusters: Seq<usize>, para_end: usize, i: int) -> usize {
    if i + 1 < clusters.len() {
        clusters[i + 1]
    } else {
        para_end
    }
}

/// The byte at which the break after a fragment is tested is where the text
/// after that fragment begins: the next fragment's cluster, and the
/// paragraph's end after its last fragment, never the fragment's own start.
pub proof fn lemma_break_tested_after_fragment(clusters: Seq<usize>, para_end: usize)
    ensures
        clusters.len() > 0 ==> next_cluster(clusters, para_end, clusters.len() - 1) == para_end,
        forall|i: int|
            0 <= i && i + 1 < clusters.len() ==> #[trigger] next_cluster(clusters, para_end, i)
                == clusters[i + 1],
{
}

/// Whether `offset` occurs in `offsets`.
fn contains_offset(offsets: &[usize], offset: usize) -> (r: bool)
    ensures
        r == offsets@.contains(offset),
{
    let n = offsets.len();
    let mut i: usize = 0;
    while i < n
        invariant
            n == offsets@.len(),
            i <= n,
            forall|k: int| 0 <= k < i ==> offsets@[k] != offset,
        decreases n - i,
    {
        if offsets[i] == offset {
            return true;
        }
        i = i + 1;
    }
    false
}

/// Marks the break opportunities of a paragraph's fragments: fragment `i`
/// may be followed by a line break exactly when the cluster that follows it
/// (the next fragment's, or `para_end` after the last) is a break offset.
pub fn break_after_flags(clusters: &[usize], para_end: usize, break_offsets: &[usize]) -> (flags: Vec<bool>)
    ensures
        flags@.len() == clusters@.len(),
        forall|i: int|
            0 <= i < clusters@.len() ==> #[trigger] flags@[i] == break_offsets@.contains(
                next_cluster(clusters@, para_end, i),
            ),
        clusters@.len() > 0 ==> flags@[clusters@.len() - 1] == break_offsets@.contains(para_end),
        forall|i: int|
            0 <= i && i + 1 < clusters@.len() ==> #[trigger] flags@[i] == break_offsets@.contains(
                clusters@[i + 1],
            ),
{
    proof {
        lemma_break_tested_after_fragment(clusters@, para_end);
    }
    let n = clusters.len();
    let mut flags: Vec<bool> = Vec::new();
    let mut i: usize = 0;
    while i < n
        invariant
            n == clusters@.len(),
            i <= n,
            flags@.len() == i,
            forall|k: int|
                0 <= k < i ==> #[trigger] flags@[k] == break_offsets@.contains(
                    next_cluster(clusters@, para_end, k),
                ),
        decreases n - i,
    {
        let next = if i + 1 < n {
            clusters[i + 1]
        } else {
            para_end
        };
        flags.push(contains_offset(break_offsets, next));
        i = i + 1;
    }
    flags
}

/// Whether a paragraph starting at byte `offset` with `len` bytes holds a
/// line starting at `line_start`; an empty paragraph holds only a line that
/// starts exactly where it does.
pub open spec fn paragraph_holds_line(offset: usize, len: usize, line_start: usize) -> bool {
    &&& offset <= line_start
    &&& if len == 0 {
        offset == line_start
    } else {
        line_start < offset + len
    }
}

/// Finds the first paragraph, given as `(offset, len)`, that holds the line
/// starting at `line_start`.
pub fn find_paragraph(paras: &[(usize, usize)], line_start: usize) -> (res: Option<usize>)
    ensures
        res matches Some(i) ==> {
            &&& i < paras@.len()
            &&& paragraph_holds_line(paras@[i as int].0, paras@[i as int].1, line_start)
            &&& forall|j: int|
                0 <= j < i ==> !paragraph_holds_line(#[trigger] paras@[j].0, paras@[j].1, line_start)
        },
        res is None ==> forall|j: int|
            0 <= j < paras@.len() ==> !paragraph_holds_line(#[trigger] paras@[j].0, paras@[j].1, line_start),
{
    let n = paras.len();
    let mut i: usize = 0;
    while i < n
        invariant
            n == paras@.len(),
            i <= n,
            forall|j: int|
                0 <= j < i ==> !paragraph_holds_line(#[trigger] paras@[j].0, paras@[j].1, line_start),
        decreases n - i,
    {
        let (offset, len) = paras[i];
        let holds = offset <= line_start && (if len == 0 {
            offset == line_start
        } else {
            line_start - offset < len
        });
        if holds {
            return Some(i);
        }
        i = i + 1;
    }
    None
}

/// Whether a glyph of cluster `cluster` belongs to the line `line_start..line_end`.
pub open spec fn on_line(cluster: usize, line_start: usize, line_end: usize) -> bool {
    line_start <= cluster < line_end
}

/// `picked` lists, in increasing order, exactly the indices of the glyphs
/// whose clusters lie on the line `line_start..line_end`.
pub open spec fn picks_line_glyphs(clusters: Seq<usize>, line_start: usize, line_end: usize, picked: Seq<usize>) -> bool {
    &&& forall|j: int|
        0 <= j < picked.len() ==> #[trigger] picked[j] < clusters.len() && on_line(
            clusters[picked[j] as int],
            line_start,
            line_end,
        )
    &&& forall|j: int, k: int|
        #![trigger picked[j], picked[k]]
        0 <= j < k < picked.len() ==> picked[j] < picked[k]
    &&& forall|g: int|
        #![trigger clusters[g]]
        0 <= g < clusters.len() && on_line(clusters[g], line_start, line_end) ==> picked.contains(
            g as usize,
        )
}

/// Picks, in order, the indices of the glyphs whose clusters lie on the line
/// `line_start..line_end`.
pub fn select_line_glyphs(clusters: &[usize], line_start: usize, line_end: usize) -> (picked: Vec<usize>)
    ensures
        picks_line_glyphs(clusters@, line_start, line_end, picked@),
{
    let n = clusters.len();
    let mut picked: Vec<usize> = Vec::new();
    let mut i: usize = 0;
    while i < n
        invariant
            n == clusters@.len(),
            i <= n,
            forall|j: int| 0 <= j < picked@.len() ==> #[trigger] picked@[j] < i && on_line(clusters@[picked@[j] as int], line_start, line_end),
            forall|j: int, k: int|
                #![trigger picked@[j], picked@[k]]
                0 <= j < k < picked@.len() ==> picked@[j] < picked@[k],
            forall|g: int|
                #![trigger clusters@[g]]
                0 <= g < i && on_line(clusters@[g], line_start, line_end) ==> picked@.contains(g as usize),
        decreases n - i,
    {
        let c = clusters[i];
        if line_start <= c && c < line_end {
            let ghost old_picked = picked@;
            picked.push(i);
            proof {
                assert forall|g: int|
                    #![trigger clusters@[g]]
                    0 <= g < i + 1 && on_line(clusters@[g], line_start, line_end) implies picked@.contains(g as usize) by {
                    if g < i {
                        let w = choose|w: int| 0 <= w < old_picked.len() && old_picked[w] == g as usize;
                        assert(picked@[w] == g as usize);
                    } else {
                        assert(picked@[picked@.len() - 1] == g as usize);
                    }
                }
            }
        }
        i = i + 1;
    }
    picked
}

/// Where the glyphs of one line come from: the paragraph that holds the
/// line (none if no paragraph does) and the indices of that paragraph's
/// glyphs that lie on the line.
#[derive(Debug, Clone)]
pub struct LinePlan {
    pub paragraph: Option<usize>,
    pub glyphs: Vec<usize>,
}

/// `plan` is the plan of the line `line` over paragraphs `paras` (offset,
/// length) whose glyphs have the text offsets `clusters`.
pub open spec fn line_plan_of(
    plan: LinePlan,
    paras: Seq<(usize, usize)>,
    clusters: Seq<Seq<usize>>,
    line: (usize, usize),
) -> bool {
    match plan.paragraph {
        None => {
            &&& plan.glyphs@.len() == 0
            &&& forall|j: int|
                0 <= j < paras.len() ==> !paragraph_holds_line(#[trigger] paras[j].0, paras[j].1, line.0)
        },
        Some(p) => {
            &&& p < paras.len()
            &&& paragraph_holds_line(paras[p as int].0, paras[p as int].1, line.0)
            &&& forall|j: int|
                0 <= j < p ==> !paragraph_holds_line(#[trigger] paras[j].0, paras[j].1, line.0)
            &&& picks_line_glyphs(clusters[p as int], line.0, line.1, plan.glyphs@)
        },
    }
}

/// Plans every line of `line_ranges`: one plan per range, in order, naming
/// the first paragraph that holds the range's start and the glyphs of that
/// paragraph that lie in the range. `clusters[p]` holds the text offsets of
/// paragraph `p`'s glyphs in shaping order.
pub fn plan_lines(
    paras: &[(usize, usize)],
    clusters: &Vec<Vec<usize>>,
    line_ranges: &[(usize, usize)],
) -> (plans: Vec<LinePlan>)
    requires
        clusters@.len() == paras@.len(),
    ensures
        plans@.len() == line_ranges@.len(),
        forall|i: int|
            0 <= i < line_ranges@.len() ==> line_plan_of(
                #[trigger] plans@[i],
                paras@,
                clusters@.map_values(|v: Vec<usize>| v@),
                line_ranges@[i],
            ),
{
    let n = line_ranges.len();
    let mut plans: Vec<LinePlan> = Vec::new();
    let mut i: usize = 0;
    while i < n
        invariant
            n == line_ranges@.len(),
            i <= n,
            clusters@.len() == paras@.len(),
            plans@.len() == i,
            forall|k: int|
                0 <= k < i ==> line_plan_of(
                    #[trigger] plans@[k],
                    paras@,
                    clusters@.map_values(|v: Vec<usize>| v@),
                    line_ranges@[k],
                ),
        decreases n - i,
    {
        let (line_start, line_end) = line_ranges[i];
        let plan = match find_paragraph(paras, line_start) {
            None => LinePlan { paragraph: None, glyphs: Vec::new() },
            Some(p) => {
                let picked = select_line_glyphs(clusters[p].as_slice(), line_start, line_end);
                LinePlan { paragraph: Some(p), glyphs: picked }
            },
        };
        let ghost old_plans = plans@;
        plans.push(plan);
        proof {
            assert forall|k: int|
                0 <= k < i + 1 implies line_plan_of(
                    #[trigger] plans@[k],
                    paras@,
                    clusters@.map_values(|v: Vec<usize>| v@),
                    line_ranges@[k],
                ) by {
                if k < i {
                    assert(plans@[k] == old_plans[k]);
                }
            }
        }
        i = i + 1;
    }
    plans
}

} // verus!
