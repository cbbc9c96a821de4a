use vstd::prelude::*;

use crate::layout::next_cluster;

verus! {

/// A break opportunity: the byte offset at which a line cut there would
/// start the next line, and the index of the first fragment after it.
#[derive(Debug, Clone, Copy, PartialEq, Eq, Structural)]
pub struct BreakPoint {
    pub offset: usize,
    pub fragment: usize,
}

/// Where greedy line wrapping stands after some fragments: the byte offset
/// at which the current line starts and the last break opportunity met on
/// that line, if any.
#[derive(Debug, Clone, Copy, PartialEq, Eq, Structural)]
pub struct WrapState {
    pub line_start: usize,
    pub last_break: Option<BreakPoint>,
}

/// How the width of the current line goes on after a fragment.
#[derive(Debug, Clone, Copy, PartialEq, Eq, Structural)]
pub enum LineWidth {
    /// The line did not overflow: the width, fragment included, stands.
    Keep,
    /// The line was cut: the new line holds the fragments from this index
    /// through the current one, and its width is the sum of theirs.
    Restart(usize),
}

/// What wrapping does at one fragment.
#[derive(Debug, Clone, Copy)]
pub struct WrapStep {
    pub state: WrapState,
    /// The line that ends here, as a byte range, if one does.
    pub line: Option<(usize, usize)>,
    pub width: LineWidth,
}

/// The state before the first fragment: a line starting at byte 0 with no
/// break opportunity yet.
pub open spec fn wrap_start() -> WrapState {
    WrapState { line_start: 0, last_break: None }
}

/// Wrapping's decision at fragment `index`, whose cluster starts at byte
/// `cluster`, once the fragment's width has been added to the line: when the
/// line `overflows`, it is cut at the last break opportunity (or, lacking
/// one, before the fragment), a non-empty line is emitted, and the new line
/// holds the fragments after the cut; then, when a break may follow the
/// fragment, the cluster that follows it (`next`) becomes the last break
/// opportunity.
pub open spec fn wrap_decision(
    state: WrapState,
    index: usize,
    cluster: usize,
    overflows: bool,
    break_after: bool,
    next: usize,
) -> WrapStep {
    let (break_at, first) = match state.last_break {
        Some(b) => (b.offset, b.fragment),
        None => (cluster, index),
    };
    let line_start = if overflows {
        break_at
    } else {
        state.line_start
    };
    let kept_break = if overflows {
        None
    } else {
        state.last_break
    };
    WrapStep {
        state: WrapState {
            line_start,
            last_break: if break_after {
                Some(BreakPoint { offset: next, fragment: (index + 1) as usize })
            } else {
                kept_break
            },
        },
        line: if overflows && break_at > state.line_start {
            Some((state.line_start, break_at))
        } else {
            None
        },
        width: if overflows {
            LineWidth::Restart(first)
        } else {
            LineWidth::Keep
        },
    }
}

/// The state before the first fragment.
pub fn wrap_begin() -> (state: WrapState)
    ensures
        state == wrap_start(),
{
    WrapState { line_start: 0, last_break: None }
}

/// One step of greedy wrapping over fragment `index` (see `wrap_decision`).
pub fn wrap_step(
    state: WrapState,
    index: usize,
    cluster: usize,
    overflows: bool,
    break_after: bool,
    next: usize,
) -> (step: WrapStep)
    requires
        index < usize::MAX,
    ensures
        step == wrap_decision(state, index, cluster, overflows, break_after, next),
{
    let (break_at, first) = match state.last_break {
        Some(b) => (b.offset, b.fragment),
        None => (cluster, index),
    };
    let mut line: Option<(usize, usize)> = None;
    let mut line_start = state.line_start;
    let mut last_break = state.last_break;
    let mut width = LineWidth::Keep;
    if overflows {
        if break_at > state.line_start {
            line = Some((state.line_start, break_at));
        }
        line_start = break_at;
        last_break = None;
        width = LineWidth::Restart(first);
    }
    if break_after {
        last_break = Some(BreakPoint { offset: next, fragment: index + 1 });
    }
    WrapStep { state: WrapState { line_start, last_break }, line, width }
}

/// The line that closes the text after the last fragment: from the current
/// line start to the end of the text, unless nothing is left.
pub open spec fn closing_line(state: WrapState, text_len: usize) -> Option<(usize, usize)> {
    if state.line_start < text_len {
        Some((state.line_start, text_len))
    } else {
        None
    }
}

/// The line that closes the text after the last fragment.
pub fn wrap_finish(state: WrapState, text_len: usize) -> (line: Option<(usize, usize)>)
    ensures
        line == closing_line(state, text_len),
{
    if state.line_start < text_len {
        Some((state.line_start, text_len))
    } else {
        None
    }
}

/// The state and the lines emitted after wrapping the first `k` fragments,
/// fragment `i` having its cluster at `clusters[i]`, overflowing the line
/// iff `overflows[i]` and allowing a break after it iff `breaks[i]`.
pub open spec fn wrap_after(
    clusters: Seq<usize>,
    overflows: Seq<bool>,
    breaks: Seq<bool>,
    text_len: usize,
    k: nat,
) -> (WrapState, Seq<(usize, usize)>)
    decreases k,
{
    if k == 0 {
        (wrap_start(), Seq::empty())
    } else {
        let (state, lines) = wrap_after(clusters, overflows, breaks, text_len, (k - 1) as nat);
        let i = k - 1;
        let step = wrap_decision(
            state,
            i as usize,
            clusters[i],
            overflows[i],
            breaks[i],
            next_cluster(clusters, text_len, i),
        );
        (
            step.state,
            match step.line {
                Some(line) => lines.push(line),
                None => lines,
            },
        )
    }
}

/// All lines of a wrapped text: those emitted at the fragments, then the
/// closing line.
pub open spec fn wrapped_lines(
    clusters: Seq<usize>,
    overflows: Seq<bool>,
    breaks: Seq<bool>,
    text_len: usize,
) -> Seq<(usize, usize)> {
    let (state, lines) = wrap_after(clusters, overflows, breaks, text_len, clusters.len());
    match closing_line(state, text_len) {
        Some(line) => lines.push(line),
        None => lines,
    }
}

/// `lines` are non-empty byte ranges, each starting where the one before
/// ends, the first at byte 0.
pub open spec fn lines_chained(lines: Seq<(usize, usize)>) -> bool {
    &&& lines.len() > 0 ==> lines[0].0 == 0
    &&& forall|j: int| 0 <= j < lines.len() ==> #[trigger] lines[j].0 < lines[j].1
    &&& forall|j: int, k: int|
        #![trigger lines[j], lines[k]]
        0 <= j && k == j + 1 && k < lines.len() ==> lines[j].1 == lines[k].0
}

/// Clusters that never decrease and stay within the text.
pub open spec fn clusters_in_order(clusters: Seq<usize>, text_len: usize) -> bool {
    &&& forall|i: int, j: int|
        #![trigger clusters[i], clusters[j]]
        0 <= i <= j < clusters.len() ==> clusters[i] <= clusters[j]
    &&& forall|i: int| 0 <= i < clusters.len() ==> #[trigger] clusters[i] <= text_len
}

/// What holds after `k` fragments of text whose clusters are in order.
spec fn wrap_invariant(
    clusters: Seq<usize>,
    text_len: usize,
    k: nat,
    state: WrapState,
    lines: Seq<(usize, usize)>,
) -> bool {
    &&& lines_chained(lines)
    &&& state.line_start == (if lines.len() == 0 {
        0
    } else {
        lines[lines.len() - 1].1 as int
    })
    &&& state.line_start <= text_len
    &&& forall|m: int| k <= m < clusters.len() ==> state.line_start <= #[trigger] clusters[m]
    &&& state.last_break matches Some(b) ==> {
        &&& state.line_start <= b.offset <= text_len
        &&& forall|m: int| k <= m < clusters.len() ==> b.offset <= #[trigger] clusters[m]
    }
}

proof fn lemma_wrap_invariant(
    clusters: Seq<usize>,
    overflows: Seq<bool>,
    breaks: Seq<bool>,
    text_len: usize,
    k: nat,
)
    requires
        clusters_in_order(clusters, text_len),
        overflows.len() == clusters.len(),
        breaks.len() == clusters.len(),
        k <= clusters.len(),
    ensures
        ({
            let (state, lines) = wrap_after(clusters, overflows, breaks, text_len, k);
            wrap_invariant(clusters, text_len, k, state, lines)
        }),
    decreases k,
{
    if k > 0 {
        let i = k - 1;
        lemma_wrap_invariant(clusters, overflows, breaks, text_len, (k - 1) as nat);
        let (state, lines) = wrap_after(clusters, overflows, breaks, text_len, (k - 1) as nat);
        let next = next_cluster(clusters, text_len, i);
        let step = wrap_decision(state, i as usize, clusters[i], overflows[i], breaks[i], next);
        let new_lines = match step.line {
            Some(line) => lines.push(line),
            None => lines,
        };
        assert(wrap_after(clusters, overflows, breaks, text_len, k) == (step.state, new_lines));
        assert(state.line_start <= clusters[i]);
        assert(clusters[i] <= next) by {
            if i + 1 < clusters.len() {
                assert(clusters[i] <= clusters[i + 1]);
            }
        }
        assert(next <= text_len) by {
            if i + 1 < clusters.len() {
                assert(clusters[i + 1] <= text_len);
            }
        }
        assert forall|m: int| k <= m < clusters.len() implies next <= #[trigger] clusters[m] by {
            assert(clusters[i + 1] <= clusters[m]);
        }
        assert forall|m: int| k <= m < clusters.len() implies step.state.line_start
            <= #[trigger] clusters[m] by {
            assert(clusters[i] <= clusters[m]);
        }
        if let Some(line) = step.line {
            assert(new_lines[new_lines.len() - 1] == line);
            assert forall|j: int| 0 <= j < new_lines.len() implies #[trigger] new_lines[j].0
                < new_lines[j].1 by {
                if j < lines.len() {
                    assert(new_lines[j] == lines[j]);
                }
            }
            assert forall|j: int, m: int|
                #![trigger new_lines[j], new_lines[m]]
                0 <= j && m == j + 1 && m < new_lines.len() implies new_lines[j].1
                == new_lines[m].0 by {
                if m < lines.len() {
                    assert(new_lines[j] == lines[j]);
                    assert(new_lines[m] == lines[m]);
                } else {
                    assert(new_lines[j] == lines[j]);
                }
            }
            if lines.len() > 0 {
                assert(new_lines[0] == lines[0]);
            }
        }
    }
}

/// Byte offset `end` is one where wrapping may end a line: right after a
/// fragment that allows a break, or, when a fragment alone overflows the
/// line, at the start of that fragment.
pub open spec fn line_end_allowed(clusters: Seq<usize>, breaks: Seq<bool>, text_len: usize, end: int) -> bool {
    exists|j: int|
        0 <= j < clusters.len() && ((breaks[j] && end == #[trigger] next_cluster(clusters, text_len, j))
            || end == clusters[j])
}

proof fn lemma_line_ends_invariant(
    clusters: Seq<usize>,
    overflows: Seq<bool>,
    breaks: Seq<bool>,
    text_len: usize,
    k: nat,
)
    requires
        overflows.len() == clusters.len(),
        breaks.len() == clusters.len(),
        k <= clusters.len(),
    ensures
        ({
            let (state, lines) = wrap_after(clusters, overflows, breaks, text_len, k);
            &&& forall|i: int|
                0 <= i < lines.len() ==> line_end_allowed(
                    clusters,
                    breaks,
                    text_len,
                    #[trigger] lines[i].1 as int,
                )
            &&& state.last_break matches Some(b) ==> exists|j: int|
                0 <= j < k && breaks[j] && b.offset == #[trigger] next_cluster(clusters, text_len, j)
        }),
    decreases k,
{
    if k > 0 {
        let i = k - 1;
        lemma_line_ends_invariant(clusters, overflows, breaks, text_len, (k - 1) as nat);
        let (state, lines) = wrap_after(clusters, overflows, breaks, text_len, (k - 1) as nat);
        let next = next_cluster(clusters, text_len, i);
        let step = wrap_decision(state, i as usize, clusters[i], overflows[i], breaks[i], next);
        let new_lines = match step.line {
            Some(line) => lines.push(line),
            None => lines,
        };
        assert(wrap_after(clusters, overflows, breaks, text_len, k) == (step.state, new_lines));
        if let Some(line) = step.line {
            assert(line_end_allowed(clusters, breaks, text_len, line.1 as int)) by {
                match state.last_break {
                    Some(b) => {
                        let j = choose|j: int|
                            0 <= j < k - 1 && breaks[j] && b.offset == #[trigger] next_cluster(
                                clusters,
                                text_len,
                                j,
                            );
                        assert(breaks[j] && line.1 == next_cluster(clusters, text_len, j));
                    },
                    None => {
                        assert(breaks[i] && line.1 == next_cluster(clusters, text_len, i) || line.1
                            == clusters[i]);
                    },
                }
            }
            assert forall|m: int| 0 <= m < new_lines.len() implies line_end_allowed(
                clusters,
                breaks,
                text_len,
                #[trigger] new_lines[m].1 as int,
            ) by {
                if m < lines.len() {
                    assert(new_lines[m] == lines[m]);
                }
            }
        }
        if breaks[i] {
            assert(step.state.last_break matches Some(b) && b.offset == next);
            assert(breaks[i] && next == next_cluster(clusters, text_len, i));
        }
    }
}

proof fn lemma_break_fragment_seen(
    clusters: Seq<usize>,
    overflows: Seq<bool>,
    breaks: Seq<bool>,
    text_len: usize,
    k: nat,
)
    requires
        overflows.len() == clusters.len(),
        breaks.len() == clusters.len(),
        k <= clusters.len(),
        clusters.len() <= usize::MAX,
    ensures
        wrap_after(clusters, overflows, breaks, text_len, k).0.last_break matches Some(b) ==> b.fragment
            <= k,
    decreases k,
{
    if k > 0 {
        lemma_break_fragment_seen(clusters, overflows, breaks, text_len, (k - 1) as nat);
    }
}

/// When wrapping cuts a line at fragment `k`, the new line restarts at a
/// fragment no later than `k`, so it holds the fragments after the cut up
/// to and including `k`.
pub proof fn lemma_restart_not_past_fragment(
    clusters: Seq<usize>,
    overflows: Seq<bool>,
    breaks: Seq<bool>,
    text_len: usize,
    k: nat,
)
    requires
        overflows.len() == clusters.len(),
        breaks.len() == clusters.len(),
        k < clusters.len(),
        clusters.len() <= usize::MAX,
    ensures
        wrap_decision(
            wrap_after(clusters, overflows, breaks, text_len, k).0,
            k as usize,
            clusters[k as int],
            overflows[k as int],
            breaks[k as int],
            next_cluster(clusters, text_len, k as int),
        ).width matches LineWidth::Restart(f) ==> f <= k,
{
    lemma_break_fragment_seen(clusters, overflows, breaks, text_len, k);
}

/// Every line that greedy wrapping cuts ends right after a fragment that
/// allows a break, or at the start of a fragment that alone overflowed its
/// line, or at the end of the text.
pub proof fn lemma_wrapped_lines_end_at_breaks(
    clusters: Seq<usize>,
    overflows: Seq<bool>,
    breaks: Seq<bool>,
    text_len: usize,
)
    requires
        overflows.len() == clusters.len(),
        breaks.len() == clusters.len(),
    ensures
        ({
            let lines = wrapped_lines(clusters, overflows, breaks, text_len);
            forall|i: int|
                0 <= i < lines.len() ==> #[trigger] lines[i].1 == text_len || line_end_allowed(
                    clusters,
                    breaks,
                    text_len,
                    lines[i].1 as int,
                )
        }),
{
    let n = clusters.len();
    lemma_line_ends_invariant(clusters, overflows, breaks, text_len, n);
    let (state, lines) = wrap_after(clusters, overflows, breaks, text_len, n);
    let all = wrapped_lines(clusters, overflows, breaks, text_len);
    assert forall|i: int| 0 <= i < all.len() implies #[trigger] all[i].1 == text_len
        || line_end_allowed(clusters, breaks, text_len, all[i].1 as int) by {
        if i < lines.len() {
            assert(all[i] == lines[i]);
        }
    }
}

/// Greedy wrapping of text whose fragment clusters never decrease cuts the
/// text into non-empty lines that follow each other without gap or overlap
/// from byte 0 to the end of the text, whichever fragments overflow and
/// whichever allow a break.
pub proof fn lemma_wrapped_lines_tile_text(
    clusters: Seq<usize>,
    overflows: Seq<bool>,
    breaks: Seq<bool>,
    text_len: usize,
)
    requires
        clusters_in_order(clusters, text_len),
        overflows.len() == clusters.len(),
        breaks.len() == clusters.len(),
    ensures
        ({
            let lines = wrapped_lines(clusters, overflows, breaks, text_len);
            &&& lines_chained(lines)
            &&& text_len > 0 ==> lines.len() > 0 && lines[lines.len() - 1].1 == text_len
            &&& text_len == 0 ==> lines.len() == 0
        }),
{
    let n = clusters.len();
    lemma_wrap_invariant(clusters, overflows, breaks, text_len, n);
    let (state, lines) = wrap_after(clusters, overflows, breaks, text_len, n);
    let all = wrapped_lines(clusters, overflows, breaks, text_len);
    if state.line_start < text_len {
        assert(all == lines.push((state.line_start, text_len)));
        assert forall|j: int| 0 <= j < all.len() implies #[trigger] all[j].0 < all[j].1 by {
            if j < lines.len() {
                assert(all[j] == lines[j]);
            }
        }
        assert forall|j: int, m: int|
            #![trigger all[j], all[m]]
            0 <= j && m == j + 1 && m < all.len() implies all[j].1 == all[m].0 by {
            assert(all[j] == lines[j]);
            if m < lines.len() {
                assert(all[m] == lines[m]);
            }
        }
        if lines.len() > 0 {
            assert(all[0] == lines[0]);
        }
        assert(all[all.len() - 1] == (state.line_start, text_len));
        assert(lines_chained(all));
    } else {
        assert(all == lines);
        if lines.len() == 0 {
            assert(text_len == 0);
        } else {
            assert(lines[lines.len() - 1].0 < lines[lines.len() - 1].1);
            assert(lines[lines.len() - 1].1 == text_len);
        }
    }
}

} // verus!
