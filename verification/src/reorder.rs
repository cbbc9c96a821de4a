use vstd::prelude::*;

use crate::layout::VisualRun;
use crate::types::Direction;

verus! {

/// The lowest of the levels `lv[a..=b]`.
pub open spec fn min_level(lv: Seq<u8>, a: int, b: int) -> int
    decreases b - a,
{
    if b <= a {
        lv[a] as int
    } else {
        let m = min_level(lv, a, b - 1);
        if (lv[b] as int) < m {
            lv[b] as int
        } else {
            m
        }
    }
}

/// Whether item `x` is shown before item `y` when items at the embedding
/// levels `lv`, given in logical order, are laid out in visual order by
/// rule L2 of the Unicode Bidirectional Algorithm.
///
/// L2 reverses, from the highest level down to the lowest odd level, every
/// maximal sequence of items at that level or higher. Two items are both
/// inside such a sequence exactly for the levels from that lowest odd level
/// up to the lowest level between them, so they keep their logical order
/// exactly when the lowest level from one to the other is even.
pub open spec fn shown_before(lv: Seq<u8>, x: int, y: int) -> bool {
    if x < y {
        min_level(lv, x, y) % 2 == 0
    } else if y < x {
        min_level(lv, y, x) % 2 == 1
    } else {
        false
    }
}

/// `order` lists the items `0..lv.len()`, each once, in the visual order of
/// rule L2 for the levels `lv`.
pub open spec fn visual_order_of(lv: Seq<u8>, order: Seq<usize>) -> bool {
    &&& order.len() == lv.len()
    &&& forall|p: int| 0 <= p < order.len() ==> #[trigger] order[p] < lv.len()
    &&& forall|p: int, q: int|
        #![trigger order[p], order[q]]
        0 <= p < q < order.len() ==> shown_before(lv, order[p] as int, order[q] as int)
}

/// The lowest level of `lv[a..=b]` is at most its last one.
proof fn lemma_min_level_at_most_last(lv: Seq<u8>, a: int, b: int)
    requires
        a <= b,
    ensures
        min_level(lv, a, b) <= lv[b],
{
}

/// The lowest level over `a..=c` is the lower of the lowest levels over
/// `a..=b` and `b..=c`.
proof fn lemma_min_level_split(lv: Seq<u8>, a: int, b: int, c: int)
    requires
        a <= b <= c,
    ensures
        min_level(lv, a, c) == if min_level(lv, a, b) < min_level(lv, b, c) {
            min_level(lv, a, b)
        } else {
            min_level(lv, b, c)
        },
    decreases c - b,
{
    if c == b {
        lemma_min_level_at_most_last(lv, a, b);
    } else {
        lemma_min_level_split(lv, a, b, c - 1);
    }
}

/// Visual order is transitive.
proof fn lemma_shown_before_transitive(lv: Seq<u8>, x: int, y: int, z: int)
    requires
        shown_before(lv, x, y),
        shown_before(lv, y, z),
    ensures
        shown_before(lv, x, z),
{
    if x < y && y < z {
        lemma_min_level_split(lv, x, y, z);
    } else if x < z && z < y {
        lemma_min_level_split(lv, x, z, y);
    } else if y < x && x < z {
        lemma_min_level_split(lv, y, x, z);
    } else if y < z && z < x {
        lemma_min_level_split(lv, y, z, x);
    } else if z < x && x < y {
        lemma_min_level_split(lv, z, x, y);
    } else if z < y && y < x {
        lemma_min_level_split(lv, z, y, x);
    }
}

/// The lowest of `levels[a..=b]`.
fn lowest_between(levels: &[u8], a: usize, b: usize) -> (m: u8)
    requires
        a <= b < levels@.len(),
    ensures
        m == min_level(levels@, a as int, b as int),
{
    let mut m = levels[a];
    let mut k = a;
    while k < b
        invariant
            a <= k <= b < levels@.len(),
            m == min_level(levels@, a as int, k as int),
        decreases b - k,
    {
        k = k + 1;
        if levels[k] < m {
            m = levels[k];
        }
    }
    m
}

/// Lays items at the embedding levels `levels` (in logical order) out in
/// visual order by rule L2 of the Unicode Bidirectional Algorithm, giving
/// the positions of the items in the order they are shown.
pub fn visual_order(levels: &[u8]) -> (order: Vec<usize>)
    ensures
        visual_order_of(levels@, order@),
{
    let n = levels.len();
    let mut order: Vec<usize> = Vec::new();
    let mut i: usize = 0;
    while i < n
        invariant
            n == levels@.len(),
            i <= n,
            order@.len() == i,
            forall|p: int| 0 <= p < order@.len() ==> #[trigger] order@[p] < i,
            forall|p: int, q: int|
                #![trigger order@[p], order@[q]]
                0 <= p < q < order@.len() ==> shown_before(levels@, order@[p] as int, order@[q] as int),
        decreases n - i,
    {
        let mut p: usize = 0;
        while p < order.len()
            invariant_except_break
                forall|q: int| 0 <= q < p ==> shown_before(levels@, #[trigger] order@[q] as int, i as int),
            invariant
                n == levels@.len(),
                i < n,
                p <= order@.len(),
                forall|q: int| 0 <= q < order@.len() ==> #[trigger] order@[q] < i,
            ensures
                p <= order@.len(),
                forall|q: int| 0 <= q < p ==> shown_before(levels@, #[trigger] order@[q] as int, i as int),
                p < order@.len() ==> shown_before(levels@, i as int, order@[p as int] as int),
            decreases order@.len() - p,
        {
            let x = order[p];
            assert(order@[p as int] < i);
            if lowest_between(levels, x, i) % 2 == 1 {
                break;
            }
            p = p + 1;
        }
        let ghost old_order = order@;
        order.insert(p, i);
        proof {
            assert forall|a: int, b: int|
                #![trigger order@[a], order@[b]]
                0 <= a < b < order@.len() implies shown_before(
                    levels@,
                    order@[a] as int,
                    order@[b] as int,
                ) by {
                if b < p {
                    assert(order@[a] == old_order[a] && order@[b] == old_order[b]);
                } else if b == p {
                    assert(order@[a] == old_order[a]);
                } else if a < p {
                    assert(order@[a] == old_order[a] && order@[b] == old_order[b - 1]);
                    assert(shown_before(levels@, old_order[a] as int, i as int));
                    assert(shown_before(levels@, i as int, old_order[p as int] as int));
                    if b - 1 > p {
                        assert(shown_before(levels@, old_order[p as int] as int, old_order[b - 1] as int));
                        lemma_shown_before_transitive(levels@, i as int, old_order[p as int] as int, old_order[b - 1] as int);
                    }
                    lemma_shown_before_transitive(levels@, old_order[a] as int, i as int, old_order[b - 1] as int);
                } else if a == p {
                    assert(order@[b] == old_order[b - 1]);
                    if b - 1 > p {
                        assert(shown_before(levels@, old_order[p as int] as int, old_order[b - 1] as int));
                        lemma_shown_before_transitive(levels@, i as int, old_order[p as int] as int, old_order[b - 1] as int);
                    }
                } else {
                    assert(order@[a] == old_order[a - 1] && order@[b] == old_order[b - 1]);
                }
            }
            assert forall|q: int| 0 <= q < order@.len() implies #[trigger] order@[q] < i + 1 by {
                if q < p {
                    assert(order@[q] == old_order[q]);
                } else if q > p {
                    assert(order@[q] == old_order[q - 1]);
                }
            }
        }
        i = i + 1;
    }
    order
}

/// The level of byte `k` of a paragraph whose bytes have the levels
/// `levels`; a byte without a level counts as level 0.
pub open spec fn level_at(levels: Seq<u8>, k: int) -> u8 {
    if 0 <= k < levels.len() {
        levels[k]
    } else {
        0
    }
}

/// The lowest level of the bytes `s..e`, for `s < e`.
pub open spec fn span_min(levels: Seq<u8>, s: int, e: int) -> u8
    decreases e - s,
{
    if e <= s + 1 {
        level_at(levels, s)
    } else {
        let m = span_min(levels, s, e - 1);
        if level_at(levels, e - 1) < m {
            level_at(levels, e - 1)
        } else {
            m
        }
    }
}

/// The level each run is laid out at: the lowest level of its bytes.
pub open spec fn run_levels_of(levels: Seq<u8>, runs: Seq<VisualRun>) -> Seq<u8> {
    Seq::new(runs.len(), |j: int| span_min(levels, runs[j].start as int, runs[j].end as int))
}

/// The lowest level of the bytes `start..end`.
fn lowest_level(levels: &[u8], start: usize, end: usize) -> (m: u8)
    requires
        start < end,
    ensures
        m == span_min(levels@, start as int, end as int),
{
    let n = levels.len();
    let mut m = if start < n {
        levels[start]
    } else {
        0
    };
    let mut k = start + 1;
    while k < end
        invariant
            n == levels@.len(),
            start < k <= end,
            m == span_min(levels@, start as int, k as int),
        decreases end - k,
    {
        let l = if k < n {
            levels[k]
        } else {
            0
        };
        if l < m {
            m = l;
        }
        k = k + 1;
    }
    m
}

/// The order in which the runs of a paragraph (given in logical order) are
/// shown: rule L2 of the Unicode Bidirectional Algorithm, each run taken at
/// the lowest level of its bytes. `order[p]` is the position in `runs` of
/// the run shown `p`-th.
pub fn visual_run_order(levels: &[u8], runs: &Vec<VisualRun>) -> (order: Vec<usize>)
    requires
        forall|j: int| 0 <= j < runs@.len() ==> #[trigger] runs@[j].start < runs@[j].end,
    ensures
        visual_order_of(run_levels_of(levels@, runs@), order@),
{
    let n = runs.len();
    let mut run_levels: Vec<u8> = Vec::new();
    let mut j: usize = 0;
    while j < n
        invariant
            n == runs@.len(),
            j <= n,
            forall|k: int| 0 <= k < runs@.len() ==> #[trigger] runs@[k].start < runs@[k].end,
            run_levels@ =~= run_levels_of(levels@, runs@).take(j as int),
        decreases n - j,
    {
        let l = lowest_level(levels, runs[j].start, runs[j].end);
        run_levels.push(l);
        j = j + 1;
    }
    assert(run_levels@ =~= run_levels_of(levels@, runs@));
    visual_order(run_levels.as_slice())
}

/// The order in which the `count` parts of one run, given in logical order,
/// are shown: as given in a left-to-right run, reversed in a right-to-left
/// one. `order[p]` is the position of the part shown `p`-th.
pub fn run_parts_order(count: usize, direction: Direction) -> (order: Vec<usize>)
    ensures
        order@.len() == count,
        forall|p: int|
            0 <= p < count ==> #[trigger] order@[p] == (if direction == Direction::Rtl {
                count - 1 - p
            } else {
                p
            }),
{
    let mut order: Vec<usize> = Vec::new();
    let mut p: usize = 0;
    while p < count
        invariant
            p <= count,
            order@.len() == p,
            forall|q: int|
                0 <= q < p ==> #[trigger] order@[q] == (if direction == Direction::Rtl {
                    count - 1 - q
                } else {
                    q
                }),
        decreases count - p,
    {
        if direction.is_rtl() {
            order.push(count - 1 - p);
        } else {
            order.push(p);
        }
        p = p + 1;
    }
    order
}

} // verus!
