use vstd::prelude::*;
use vstd::string::StringSliceAdditionalSpecFns;
use vstd::utf8::*;

use unicode_bidi::{BidiInfo, Level};
use unicode_linebreak::linebreaks;

use crate::layout::{build_visual_runs, visual_runs_of, VisualRun};
use crate::reorder::{run_levels_of, visual_order_of, visual_run_order};
use crate::types::{level_direction, BidiMode, Direction};

verus! {

broadcast use {vstd::utf8::encode_utf8_valid_utf8, vstd::utf8::encode_utf8_decode_utf8};

/// The paragraphs (byte start, byte end, embedding level) and the embedding
/// level of every byte that the Unicode Bidirectional Algorithm assigns to
/// `text`, given the default paragraph level (`None`: taken from the text).
pub uninterp spec fn bidi_analysis(text: Seq<char>, default_level: Option<u8>) -> (
    Seq<(usize, usize, u8)>,
    Seq<u8>,
);

/// The byte offsets of the line-break opportunities that the Unicode Line
/// Breaking Algorithm finds in `text`.
pub uninterp spec fn line_break_offsets(text: Seq<char>) -> Seq<usize>;

/// Runs the Unicode Bidirectional Algorithm over `text` with
/// `unicode_bidi::BidiInfo::new`, returning its paragraphs as
/// `(start, end, level)` and its per-byte levels as numbers.
///
/// Trusted: the result is `bidi_analysis` of the arguments; the crate documents
/// one level per byte of the text and paragraph boundaries as byte indices
/// within the text, and its source cuts paragraphs only after whole
/// characters. A default level above 125 is ruled out: the implicit step
/// raises levels with a checked step that panics past 126.
#[verifier::external_body]
fn bidi_info(text: &str, default_level: Option<u8>) -> (res: (Vec<(usize, usize, u8)>, Vec<u8>))
    requires
        default_level matches Some(n) ==> n <= 125,
    ensures
        (res.0@, res.1@) == bidi_analysis(text@, default_level),
        res.1@.len() == text.spec_bytes().len(),
        forall|i: int|
            #![trigger res.0@[i]]
            0 <= i < res.0@.len() ==> {
                &&& res.0@[i].0 <= res.0@[i].1 <= text.spec_bytes().len()
                &&& is_char_boundary(text.spec_bytes(), res.0@[i].0 as int)
                &&& is_char_boundary(text.spec_bytes(), res.0@[i].1 as int)
            },
{
    let level = match default_level {
        Some(n) => Some(Level::new(n).unwrap()),
        None => None,
    };
    let info = BidiInfo::new(text, level);
    let paras = info.paragraphs.iter().map(|p| (p.range.start, p.range.end, p.level.number())).collect();
    let levels = info.levels.iter().map(|l| l.number()).collect();
    (paras, levels)
}

/// Lists the byte offsets of the line-break opportunities of `text` with
/// `unicode_linebreak::linebreaks`, dropping the kind of each break.
///
/// Trusted: the result is `line_break_offsets` of `text`; the crate's source
/// yields offsets of characters of `text` and the text's length, so none
/// exceeds that length.
#[verifier::external_body]
fn line_breaks(text: &str) -> (res: Vec<usize>)
    ensures
        res@ == line_break_offsets(text@),
        forall|i: int| 0 <= i < res@.len() ==> #[trigger] res@[i] <= text.spec_bytes().len(),
{
    linebreaks(text).map(|(pos, _)| pos).collect()
}

/// The default paragraph level that a bidi mode asks for: none for
/// automatic detection, 0 for left-to-right, 1 for right-to-left.
pub open spec fn mode_level(mode: BidiMode) -> Option<u8> {
    match mode {
        BidiMode::Auto => None,
        BidiMode::Ltr => Some(0u8),
        BidiMode::Rtl => Some(1u8),
    }
}

/// The default paragraph level for `mode`.
pub fn default_paragraph_level(mode: BidiMode) -> (level: Option<u8>)
    ensures
        level == mode_level(mode),
{
    match mode {
        BidiMode::Auto => None,
        BidiMode::Ltr => Some(0),
        BidiMode::Rtl => Some(1),
    }
}

/// What shaping needs to know of one paragraph: its byte range in the text,
/// its base direction, its visual runs in logical order (byte offsets
/// relative to `start`), the order in which those runs are shown (`order[p]`
/// is the position in `runs` of the run shown `p`-th) and its line-break
/// opportunities (byte offsets into the whole text).
#[derive(Debug, Clone)]
pub struct ParagraphPlan {
    pub start: usize,
    pub end: usize,
    pub direction: Direction,
    pub runs: Vec<VisualRun>,
    pub order: Vec<usize>,
    pub break_offsets: Vec<usize>,
}

/// The characters whose UTF-8 encoding is `bytes[start..end]`.
pub open spec fn chars_between(bytes: Seq<u8>, start: int, end: int) -> Seq<char> {
    decode_utf8(bytes.subrange(start, end))
}

/// `plan` describes the paragraph whose UTF-8 bytes are `para` and which
/// starts at byte `start` of the text, with embedding level `level`, per-byte
/// levels `levels` and paragraph-relative break offsets `breaks`: an empty
/// paragraph has no runs and no breaks; otherwise the runs are the visual
/// runs of the paragraph, shown in the order of rule L2 of the Unicode
/// Bidirectional Algorithm (each run at the lowest level of its bytes), and
/// the breaks are moved to text offsets.
pub open spec fn paragraph_plan_of(
    plan: ParagraphPlan,
    para: Seq<u8>,
    start: int,
    level: u8,
    levels: Seq<u8>,
    breaks: Seq<usize>,
) -> bool {
    &&& plan.start == start
    &&& plan.end == start + para.len()
    &&& plan.direction == level_direction(level)
    &&& if para.len() == 0 {
        plan.runs@.len() == 0 && plan.order@.len() == 0 && plan.break_offsets@.len() == 0
    } else {
        &&& visual_runs_of(para, levels, plan.runs@)
        &&& visual_order_of(run_levels_of(levels, plan.runs@), plan.order@)
        &&& plan.break_offsets@.len() == breaks.len()
        &&& forall|i: int| 0 <= i < breaks.len() ==> #[trigger] plan.break_offsets@[i] == start + breaks[i]
    }
}

/// Builds the plan of one paragraph from its text, its start in the whole
/// text, its embedding level, the levels of its bytes and the break offsets
/// found in it.
pub fn plan_paragraph(
    para_text: &str,
    start: usize,
    level: u8,
    levels: &[u8],
    breaks: &[usize],
) -> (plan: ParagraphPlan)
    requires
        start + para_text.spec_bytes().len() <= usize::MAX,
        forall|i: int| 0 <= i < breaks@.len() ==> #[trigger] breaks@[i] <= para_text.spec_bytes().len(),
    ensures
        paragraph_plan_of(
            plan,
            para_text.spec_bytes(),
            start as int,
            level,
            levels@,
            breaks@,
        ),
{
    let len = para_text.as_bytes().len();
    let direction = if level % 2 == 1 {
        Direction::Rtl
    } else {
        Direction::Ltr
    };
    if len == 0 {
        return ParagraphPlan {
            start,
            end: start,
            direction,
            runs: Vec::new(),
            order: Vec::new(),
            break_offsets: Vec::new(),
        };
    }
    let runs = build_visual_runs(para_text, direction, levels);
    let order = visual_run_order(levels, &runs);
    let mut break_offsets: Vec<usize> = Vec::new();
    let nb = breaks.len();
    let mut i: usize = 0;
    while i < nb
        invariant
            nb == breaks@.len(),
            i <= nb,
            start + len <= usize::MAX,
            len == para_text.spec_bytes().len(),
            forall|k: int| 0 <= k < breaks@.len() ==> #[trigger] breaks@[k] <= len,
            break_offsets@.len() == i,
            forall|k: int| 0 <= k < i ==> #[trigger] break_offsets@[k] == start + breaks@[k],
        decreases nb - i,
    {
        break_offsets.push(start + breaks[i]);
        i = i + 1;
    }
    ParagraphPlan { start, end: start + len, direction, runs, order, break_offsets }
}

/// Copies `v[start..end]`.
fn copy_range(v: &[u8], start: usize, end: usize) -> (r: Vec<u8>)
    requires
        start <= end <= v@.len(),
    ensures
        r@ == v@.subrange(start as int, end as int),
{
    let mut r: Vec<u8> = Vec::new();
    let mut i = start;
    while i < end
        invariant
            start <= i <= end,
            end <= v@.len(),
            r@ == v@.subrange(start as int, i as int),
        decreases end - i,
    {
        r.push(v[i]);
        i = i + 1;
    }
    r
}

/// The plans of all paragraphs of `text` under `bidi_mode`: paragraph `i`
/// follows paragraph `i` of the bidi analysis, with the levels of its bytes
/// and the break offsets of its characters.
pub open spec fn paragraph_plans_of(text: Seq<u8>, chars: Seq<char>, mode: BidiMode, plans: Seq<ParagraphPlan>) -> bool {
    let (paras, levels) = bidi_analysis(chars, mode_level(mode));
    &&& plans.len() == paras.len()
    &&& forall|i: int|
        0 <= i < paras.len() ==> paragraph_plan_of(
            #[trigger] plans[i],
            text.subrange(paras[i].0 as int, paras[i].1 as int),
            paras[i].0 as int,
            paras[i].2,
            levels.subrange(paras[i].0 as int, paras[i].1 as int),
            line_break_offsets(chars_between(text, paras[i].0 as int, paras[i].1 as int)),
        )
}

/// Resolves the paragraphs of `text` with the bidirectional algorithm and
/// plans each of them: visual runs from its levels and the order they are
/// shown in, and break opportunities from the line breaking algorithm.
pub fn analyze_paragraphs(text: &str, bidi_mode: BidiMode) -> (plans: Vec<ParagraphPlan>)
    ensures
        paragraph_plans_of(text.spec_bytes(), text@, bidi_mode, plans@),
{
    let level = default_paragraph_level(bidi_mode);
    let (paras, levels) = bidi_info(text, level);
    let ghost bytes = text.spec_bytes();
    let np = paras.len();
    let mut plans: Vec<ParagraphPlan> = Vec::new();
    let mut i: usize = 0;
    while i < np
        invariant
            np == paras@.len(),
            i <= np,
            bytes == text.spec_bytes(),
            (paras@, levels@) == bidi_analysis(text@, mode_level(bidi_mode)),
            levels@.len() == bytes.len(),
            forall|k: int|
                #![trigger paras@[k]]
                0 <= k < paras@.len() ==> {
                    &&& paras@[k].0 <= paras@[k].1 <= bytes.len()
                    &&& is_char_boundary(bytes, paras@[k].0 as int)
                    &&& is_char_boundary(bytes, paras@[k].1 as int)
                },
            plans@.len() == i,
            forall|k: int|
                0 <= k < i ==> paragraph_plan_of(
                    #[trigger] plans@[k],
                    bytes.subrange(paras@[k].0 as int, paras@[k].1 as int),
                    paras@[k].0 as int,
                    paras@[k].2,
                    levels@.subrange(paras@[k].0 as int, paras@[k].1 as int),
                    line_break_offsets(chars_between(bytes, paras@[k].0 as int, paras@[k].1 as int)),
                ),
        decreases np - i,
    {
        let (start, end, para_level) = paras[i];
        assert(paras@[i as int].0 <= paras@[i as int].1 <= bytes.len());
        let (_, rest) = text.split_at(start);
        proof {
            vstd::utf8::valid_utf8_split(bytes, start as int);
            vstd::utf8::is_char_boundary_start_end_of_seq(bytes);
            assert(rest.spec_bytes() =~= bytes.subrange(start as int, bytes.len() as int));
            lemma_boundary_shift(bytes, start as int, end as int);
        }
        let (para_text, _) = rest.split_at(end - start);
        let para_levels = copy_range(levels.as_slice(), start, end);
        proof {
            assert(para_text.spec_bytes() =~= bytes.subrange(start as int, end as int));
            assert(para_text@ == chars_between(bytes, start as int, end as int));
        }
        let breaks = if start == end {
            Vec::new()
        } else {
            line_breaks(para_text)
        };
        let plan = plan_paragraph(para_text, start, para_level, para_levels.as_slice(), breaks.as_slice());
        let ghost old_plans = plans@;
        plans.push(plan);
        proof {
            assert forall|k: int|
                0 <= k < i + 1 implies paragraph_plan_of(
                    #[trigger] plans@[k],
                    bytes.subrange(paras@[k].0 as int, paras@[k].1 as int),
                    paras@[k].0 as int,
                    paras@[k].2,
                    levels@.subrange(paras@[k].0 as int, paras@[k].1 as int),
                    line_break_offsets(chars_between(bytes, paras@[k].0 as int, paras@[k].1 as int)),
                ) by {
                if k < i {
                    assert(plans@[k] == old_plans[k]);
                }
            }
        }
        i = i + 1;
    }
    plans
}

/// A character boundary at `end` of `bytes` is, seen from `start`, a
/// character boundary of `bytes[start..]`.
proof fn lemma_boundary_shift(bytes: Seq<u8>, start: int, end: int)
    requires
        valid_utf8(bytes),
        0 <= start <= end <= bytes.len(),
        is_char_boundary(bytes, start),
        is_char_boundary(bytes, end),
    ensures
        is_char_boundary(bytes.subrange(start, bytes.len() as int), end - start),
{
    let sub = bytes.subrange(start, bytes.len() as int);
    valid_utf8_split(bytes, start);
    is_char_boundary_start_end_of_seq(sub);
    if end < bytes.len() {
        is_char_boundary_iff_not_is_continuation_byte(bytes, end);
        is_char_boundary_iff_not_is_continuation_byte(sub, end - start);
    }
}

} // verus!
