//! Justification: the free space of a line is shared out among its spaces.

use vstd::prelude::*;
use crate::layout::{Alignment, BreakReason, ClusterData, LayoutData, LineData, LineItemData};
use crate::units::{clamp, is_finite, minus, plus};

verus! {

/// The clusters of an item in the order in which justification visits
/// them: forwards where the item's bidi level is even, backwards where it
/// is odd.
pub open spec fn item_order(item: LineItemData) -> Seq<int> {
    if item.bidi_level % 2 == 1 {
        Seq::new(item.cluster_range.spec_len() as nat, |k: int| item.cluster_range.end - 1 - k)
    } else {
        Seq::new(item.cluster_range.spec_len() as nat, |k: int| item.cluster_range.start + k)
    }
}

/// The clusters of the items `[lo, hi)` in the order in which justification
/// visits them: item by item.
pub open spec fn line_order(items: Seq<LineItemData>, lo: int, hi: int) -> Seq<int>
    decreases hi - lo,
{
    if lo >= hi {
        Seq::empty()
    } else {
        item_order(items[lo]) + line_order(items, lo + 1, hi)
    }
}

/// `cluster` with its advance widened by `amount`, or narrowed by it.
pub open spec fn resized(cluster: ClusterData, amount: u64, widen: bool) -> ClusterData {
    ClusterData {
        advance: if widen {
            plus(cluster.advance, amount)
        } else {
            minus(cluster.advance, amount)
        },
        ..cluster
    }
}

/// `clusters` after the first `count` spaces met along `order` were each
/// resized by `amount`.
pub open spec fn spread(
    clusters: Seq<ClusterData>,
    order: Seq<int>,
    count: nat,
    amount: u64,
    widen: bool,
) -> Seq<ClusterData>
    decreases order.len(),
{
    if count == 0 || order.len() == 0 {
        clusters
    } else if 0 <= order[0] < clusters.len()
        && clusters[order[0]].info.whitespace.is_space_or_nbsp() {
        spread(
            clusters.update(order[0], resized(clusters[order[0]], amount, widen)),
            order.skip(1),
            (count - 1) as nat,
            amount,
            widen,
        )
    } else {
        spread(clusters, order.skip(1), count, amount, widen)
    }
}

/// The space that the line leaves free of the width that it was broken for,
/// its trailing whitespace not counted; 0 for a line without a limit or
/// without free space.
pub open spec fn free_space(line: LineData) -> u64 {
    if is_finite(line.max_advance) {
        clamp(line.max_advance + line.metrics.trailing_whitespace - line.metrics.advance)
    } else {
        0
    }
}

/// Justification widens the spaces of the line: the line is justified, has
/// free space and spaces to widen, and does not end the text.
pub open spec fn is_justified(line: LineData) -> bool {
    &&& line.alignment == Alignment::Justified
    &&& free_space(line) > 0
    &&& line.break_reason != BreakReason::NoBreak
    &&& line.num_spaces != 0
}

/// What justification adds to each space of the line.
pub open spec fn adjustment(line: LineData) -> u64 {
    if is_justified(line) {
        (free_space(line) / (line.num_spaces as u64)) as u64
    } else {
        0
    }
}

/// `clusters` with the spaces of `line` widened by justification, or
/// narrowed back.
pub open spec fn justified_line(
    clusters: Seq<ClusterData>,
    items: Seq<LineItemData>,
    line: LineData,
    widen: bool,
) -> Seq<ClusterData> {
    if is_justified(line) {
        spread(
            clusters,
            line_order(items, line.run_range.start as int, line.run_range.end as int),
            line.num_spaces as nat,
            adjustment(line),
            widen,
        )
    } else {
        clusters
    }
}

/// `clusters` with the spaces of the first `k` lines widened by
/// justification, or narrowed back, line by line.
pub open spec fn justified_upto(
    clusters: Seq<ClusterData>,
    items: Seq<LineItemData>,
    lines: Seq<LineData>,
    k: int,
    widen: bool,
) -> Seq<ClusterData>
    decreases k,
{
    if k <= 0 {
        clusters
    } else {
        justified_line(justified_upto(clusters, items, lines, k - 1, widen), items, lines[k - 1], widen)
    }
}

/// See `free_space`.
pub fn line_free_space(line: &LineData) -> (r: u64)
    ensures
        r == free_space(*line),
{
    if !is_finite(line.max_advance) {
        return 0;
    }
    let room: u128 = line.max_advance as u128 + line.metrics.trailing_whitespace as u128;
    if room <= line.metrics.advance as u128 {
        0
    } else {
        let free: u128 = room - line.metrics.advance as u128;
        if free > u64::MAX as u128 {
            u64::MAX
        } else {
            free as u64
        }
    }
}

/// See `adjustment`.
pub fn line_adjustment(line: &LineData) -> (r: u64)
    ensures
        r == adjustment(*line),
{
    match line.alignment {
        Alignment::Justified => {
            let free = line_free_space(line);
            if free > 0 && line.break_reason != BreakReason::NoBreak && line.num_spaces != 0 {
                free / (line.num_spaces as u64)
            } else {
                0
            }
        },
        _ => 0,
    }
}

/// Widens the spaces of `line` by what justification gives each of them,
/// or narrows them back by as much.
pub fn justify_line(
    clusters: &mut Vec<ClusterData>,
    items: &Vec<LineItemData>,
    line: &LineData,
    widen: bool,
)
    requires
        line.run_range.start <= line.run_range.end <= items@.len(),
        forall|k: int|
            line.run_range.start <= k < line.run_range.end ==> (
            #[trigger] items@[k]).cluster_range.end <= old(clusters)@.len(),
    ensures
        final(clusters)@ == justified_line(old(clusters)@, items@, *line, widen),
        final(clusters)@.len() == old(clusters)@.len(),
{
    let amount = line_adjustment(line);
    let justified = match line.alignment {
        Alignment::Justified => line_free_space(line) > 0 && line.break_reason
            != BreakReason::NoBreak && line.num_spaces != 0,
        _ => false,
    };
    if !justified {
        return ;
    }
    let ghost goal = justified_line(clusters@, items@, *line, widen);
    let mut applied: usize = 0;
    let mut it = line.run_range.start;
    while it < line.run_range.end
        invariant
            line.run_range.start <= it <= line.run_range.end <= items@.len(),
            applied <= line.num_spaces,
            clusters@.len() == old(clusters)@.len(),
            forall|k: int|
                line.run_range.start <= k < line.run_range.end ==> (
                #[trigger] items@[k]).cluster_range.end <= clusters@.len(),
            spread(
                clusters@,
                line_order(items@, it as int, line.run_range.end as int),
                (line.num_spaces - applied) as nat,
                amount,
                widen,
            ) == goal,
            goal == justified_line(old(clusters)@, items@, *line, widen),
        decreases line.run_range.end - it,
    {
        let item = &items[it];
        let count = item.cluster_range.len();
        let backwards = item.bidi_level % 2 != 0;
        let ghost rest = line_order(items@, it + 1, line.run_range.end as int);
        let ghost own = item_order(*item);
        let mut pos: usize = 0;
        assert(own.skip(0) =~= own);
        while pos < count
            invariant
                pos <= count,
                count == item.cluster_range.spec_len(),
                own == item_order(*item),
                own.len() == count,
                backwards == (item.bidi_level % 2 == 1),
                item.cluster_range.end <= clusters@.len(),
                applied <= line.num_spaces,
                clusters@.len() == old(clusters)@.len(),
                spread(
                    clusters@,
                    own.skip(pos as int) + rest,
                    (line.num_spaces - applied) as nat,
                    amount,
                    widen,
                ) == goal,
                goal == justified_line(old(clusters)@, items@, *line, widen),
            decreases count - pos,
        {
            if applied == line.num_spaces {
                return ;
            }
            let i = if backwards {
                item.cluster_range.end - 1 - pos
            } else {
                item.cluster_range.start + pos
            };
            proof {
                let remaining = own.skip(pos as int) + rest;
                assert(remaining[0] == i);
                assert(remaining.skip(1) =~= own.skip(pos + 1) + rest);
            }
            let ghost prev = clusters@;
            if clusters[i].info.whitespace.is_space_or_nbsp() {
                let advance = clusters[i].advance;
                clusters[i].advance = if widen {
                    advance.saturating_add(amount)
                } else {
                    advance.saturating_sub(amount)
                };
                applied += 1;
                assert(clusters@ =~= prev.update(
                    i as int,
                    resized(prev[i as int], amount, widen),
                ));
            }
            pos += 1;
        }
        proof {
            assert(own.skip(pos as int) + rest =~= rest);
        }
        it += 1;
    }
}

/// Removes the justification that an earlier pass applied to the clusters.
pub fn unjustify(layout: &mut LayoutData)
    requires
        old(layout).lines_in_bounds(),
    ensures
        final(layout).clusters@ == justified_upto(
            old(layout).clusters@,
            old(layout).line_items@,
            old(layout).lines@,
            old(layout).lines@.len() as int,
            false,
        ),
        final(layout).clusters@.len() == old(layout).clusters@.len(),
        *final(layout) == (LayoutData { clusters: final(layout).clusters, ..*old(layout) }),
{
    let mut k: usize = 0;
    while k < layout.lines.len()
        invariant
            k <= layout.lines@.len(),
            layout.lines_in_bounds(),
            *layout == (LayoutData { clusters: layout.clusters, ..*old(layout) }),
            layout.clusters@.len() == old(layout).clusters@.len(),
            layout.clusters@ == justified_upto(
                old(layout).clusters@,
                old(layout).line_items@,
                old(layout).lines@,
                k as int,
                false,
            ),
        decreases layout.lines@.len() - k,
    {
        justify_line(&mut layout.clusters, &layout.line_items, &layout.lines[k], false);
        k += 1;
    }
}

/// Two sequences of clusters that differ in nothing but the advances.
pub open spec fn same_but_advances(a: Seq<ClusterData>, b: Seq<ClusterData>) -> bool {
    &&& a.len() == b.len()
    &&& forall|i: int|
        0 <= i < a.len() ==> (#[trigger] a[i]) == (ClusterData { advance: a[i].advance, ..b[i] })
}

/// Justification changes nothing but advances.
pub proof fn lemma_spread_keeps(
    clusters: Seq<ClusterData>,
    order: Seq<int>,
    count: nat,
    amount: u64,
    widen: bool,
)
    ensures
        same_but_advances(spread(clusters, order, count, amount, widen), clusters),
    decreases order.len(),
{
    if count == 0 || order.len() == 0 {
    } else if 0 <= order[0] < clusters.len()
        && clusters[order[0]].info.whitespace.is_space_or_nbsp() {
        let next = clusters.update(order[0], resized(clusters[order[0]], amount, widen));
        lemma_spread_keeps(next, order.skip(1), (count - 1) as nat, amount, widen);
        let last = spread(clusters, order, count, amount, widen);
        assert forall|i: int| 0 <= i < last.len() implies (#[trigger] last[i]) == (ClusterData {
            advance: last[i].advance,
            ..clusters[i]
        }) by {
            assert(last[i] == (ClusterData { advance: last[i].advance, ..next[i] }));
        }
    } else {
        lemma_spread_keeps(clusters, order.skip(1), count, amount, widen);
    }
}

/// Justification of any number of lines changes nothing but advances.
pub proof fn lemma_justified_keeps(
    clusters: Seq<ClusterData>,
    items: Seq<LineItemData>,
    lines: Seq<LineData>,
    k: int,
    widen: bool,
)
    ensures
        same_but_advances(justified_upto(clusters, items, lines, k, widen), clusters),
    decreases k,
{
    if k > 0 {
        lemma_justified_keeps(clusters, items, lines, k - 1, widen);
        let before = justified_upto(clusters, items, lines, k - 1, widen);
        let line = lines[k - 1];
        lemma_spread_keeps(
            before,
            line_order(items, line.run_range.start as int, line.run_range.end as int),
            line.num_spaces as nat,
            adjustment(line),
            widen,
        );
        let after = justified_upto(clusters, items, lines, k, widen);
        assert forall|i: int| 0 <= i < after.len() implies (#[trigger] after[i]) == (ClusterData {
            advance: after[i].advance,
            ..clusters[i]
        }) by {
            assert(after[i] == (ClusterData { advance: after[i].advance, ..before[i] }));
            assert(before[i] == (ClusterData { advance: before[i].advance, ..clusters[i] }));
        }
    }
}

/// Widening lowers no advance.
pub proof fn lemma_spread_widens(
    clusters: Seq<ClusterData>,
    order: Seq<int>,
    count: nat,
    amount: u64,
)
    ensures
        forall|i: int|
            0 <= i < clusters.len() ==> (#[trigger] spread(
                clusters,
                order,
                count,
                amount,
                true,
            )[i]).advance >= clusters[i].advance,
    decreases order.len(),
{
    lemma_spread_keeps(clusters, order, count, amount, true);
    if count == 0 || order.len() == 0 {
    } else if 0 <= order[0] < clusters.len()
        && clusters[order[0]].info.whitespace.is_space_or_nbsp() {
        let next = clusters.update(order[0], resized(clusters[order[0]], amount, true));
        lemma_spread_widens(next, order.skip(1), (count - 1) as nat, amount);
        let last = spread(clusters, order, count, amount, true);
        assert forall|i: int| 0 <= i < clusters.len() implies (#[trigger] last[i]).advance
            >= clusters[i].advance by {
            assert(spread(next, order.skip(1), (count - 1) as nat, amount, true)[i].advance
                >= next[i].advance);
        }
    } else {
        lemma_spread_widens(clusters, order.skip(1), count, amount);
    }
}

/// Which of the clusters are spaces.
pub open spec fn spaces_of(clusters: Seq<ClusterData>) -> Seq<bool> {
    Seq::new(clusters.len(), |i: int| clusters[i].info.whitespace.is_space_or_nbsp())
}

/// What each cluster gains in all when the first `count` spaces met along
/// `order` gain `amount` each.
pub open spec fn shares(spaces: Seq<bool>, order: Seq<int>, count: nat, amount: int) -> Seq<int>
    decreases order.len(),
{
    if count == 0 || order.len() == 0 {
        Seq::new(spaces.len(), |i: int| 0int)
    } else if 0 <= order[0] < spaces.len() && spaces[order[0]] {
        let rest = shares(spaces, order.skip(1), (count - 1) as nat, amount);
        rest.update(order[0], rest[order[0]] + amount)
    } else {
        shares(spaces, order.skip(1), count, amount)
    }
}

/// What each cluster gains when `line` is justified.
pub open spec fn line_shares(spaces: Seq<bool>, items: Seq<LineItemData>, line: LineData) -> Seq<
    int,
> {
    if is_justified(line) {
        shares(
            spaces,
            line_order(items, line.run_range.start as int, line.run_range.end as int),
            line.num_spaces as nat,
            adjustment(line) as int,
        )
    } else {
        Seq::new(spaces.len(), |i: int| 0int)
    }
}

/// What each cluster gains when the first `k` lines are justified.
pub open spec fn layout_shares(
    spaces: Seq<bool>,
    items: Seq<LineItemData>,
    lines: Seq<LineData>,
    k: int,
) -> Seq<int>
    decreases k,
{
    if k <= 0 {
        Seq::new(spaces.len(), |i: int| 0int)
    } else {
        Seq::new(
            spaces.len(),
            |i: int|
                layout_shares(spaces, items, lines, k - 1)[i] + line_shares(
                    spaces,
                    items,
                    lines[k - 1],
                )[i],
        )
    }
}

/// Every cluster has a share, and none is negative.
pub proof fn lemma_shares(spaces: Seq<bool>, order: Seq<int>, count: nat, amount: int)
    requires
        amount >= 0,
    ensures
        shares(spaces, order, count, amount).len() == spaces.len(),
        forall|i: int| 0 <= i < spaces.len() ==> #[trigger] shares(spaces, order, count, amount)[i] >= 0,
    decreases order.len(),
{
    if count == 0 || order.len() == 0 {
    } else if 0 <= order[0] < spaces.len() && spaces[order[0]] {
        lemma_shares(spaces, order.skip(1), (count - 1) as nat, amount);
    } else {
        lemma_shares(spaces, order.skip(1), count, amount);
    }
}

/// Every cluster has a share, and none is negative.
pub proof fn lemma_layout_shares(
    spaces: Seq<bool>,
    items: Seq<LineItemData>,
    lines: Seq<LineData>,
    k: int,
)
    ensures
        layout_shares(spaces, items, lines, k).len() == spaces.len(),
        forall|i: int|
            0 <= i < spaces.len() ==> #[trigger] layout_shares(spaces, items, lines, k)[i] >= 0,
    decreases k,
{
    if k > 0 {
        lemma_layout_shares(spaces, items, lines, k - 1);
        let line = lines[k - 1];
        lemma_shares(
            spaces,
            line_order(items, line.run_range.start as int, line.run_range.end as int),
            line.num_spaces as nat,
            adjustment(line) as int,
        );
    }
}

/// Justification in closed form: an advance is widened by the share of its
/// cluster and stops at the top of the range, or is narrowed by it and
/// stops at 0.
pub proof fn lemma_spread_shares(
    clusters: Seq<ClusterData>,
    order: Seq<int>,
    count: nat,
    amount: u64,
    widen: bool,
)
    ensures
        same_but_advances(spread(clusters, order, count, amount, widen), clusters),
        forall|i: int|
            0 <= i < clusters.len() ==> (#[trigger] spread(
                clusters,
                order,
                count,
                amount,
                widen,
            )[i]).advance == clamp(
                if widen {
                    clusters[i].advance + shares(spaces_of(clusters), order, count, amount as int)[i]
                } else {
                    clusters[i].advance - shares(spaces_of(clusters), order, count, amount as int)[i]
                },
            ),
    decreases order.len(),
{
    let spaces = spaces_of(clusters);
    lemma_spread_keeps(clusters, order, count, amount, widen);
    lemma_shares(spaces, order, count, amount as int);
    if count == 0 || order.len() == 0 {
    } else if 0 <= order[0] < clusters.len()
        && clusters[order[0]].info.whitespace.is_space_or_nbsp() {
        let next = clusters.update(order[0], resized(clusters[order[0]], amount, widen));
        assert(spaces_of(next) =~= spaces);
        lemma_spread_shares(next, order.skip(1), (count - 1) as nat, amount, widen);
        lemma_shares(spaces, order.skip(1), (count - 1) as nat, amount as int);
        let rest = shares(spaces, order.skip(1), (count - 1) as nat, amount as int);
        let last = spread(clusters, order, count, amount, widen);
        assert forall|i: int| 0 <= i < clusters.len() implies (#[trigger] last[i]).advance
            == clamp(
            if widen {
                clusters[i].advance + shares(spaces, order, count, amount as int)[i]
            } else {
                clusters[i].advance - shares(spaces, order, count, amount as int)[i]
            },
        ) by {
            assert(last[i].advance == clamp(
                if widen {
                    next[i].advance + rest[i]
                } else {
                    next[i].advance - rest[i]
                },
            ));
        }
    } else {
        lemma_spread_shares(clusters, order.skip(1), count, amount, widen);
    }
}

/// Justification of lines in closed form; see `lemma_spread_shares`.
pub proof fn lemma_justified_shares(
    clusters: Seq<ClusterData>,
    items: Seq<LineItemData>,
    lines: Seq<LineData>,
    k: int,
    widen: bool,
)
    ensures
        same_but_advances(justified_upto(clusters, items, lines, k, widen), clusters),
        forall|i: int|
            0 <= i < clusters.len() ==> (#[trigger] justified_upto(
                clusters,
                items,
                lines,
                k,
                widen,
            )[i]).advance == clamp(
                if widen {
                    clusters[i].advance + layout_shares(spaces_of(clusters), items, lines, k)[i]
                } else {
                    clusters[i].advance - layout_shares(spaces_of(clusters), items, lines, k)[i]
                },
            ),
    decreases k,
{
    let spaces = spaces_of(clusters);
    lemma_justified_keeps(clusters, items, lines, k, widen);
    if k > 0 {
        lemma_justified_shares(clusters, items, lines, k - 1, widen);
        lemma_layout_shares(spaces, items, lines, k - 1);
        let before = justified_upto(clusters, items, lines, k - 1, widen);
        let line = lines[k - 1];
        let order = line_order(items, line.run_range.start as int, line.run_range.end as int);
        assert(spaces_of(before) =~= spaces);
        lemma_spread_shares(before, order, line.num_spaces as nat, adjustment(line), widen);
        lemma_shares(spaces, order, line.num_spaces as nat, adjustment(line) as int);
        let after = justified_upto(clusters, items, lines, k, widen);
        let sum = layout_shares(spaces, items, lines, k - 1);
        let own = line_shares(spaces, items, line);
        assert forall|i: int| 0 <= i < clusters.len() implies (#[trigger] after[i]).advance
            == clamp(
            if widen {
                clusters[i].advance + layout_shares(spaces, items, lines, k)[i]
            } else {
                clusters[i].advance - layout_shares(spaces, items, lines, k)[i]
            },
        ) by {
            assert(before[i].advance == clamp(
                if widen {
                    clusters[i].advance + sum[i]
                } else {
                    clusters[i].advance - sum[i]
                },
            ));
            assert(own[i] >= 0);
            assert(sum[i] >= 0);
            if is_justified(line) {
                assert(after[i].advance == clamp(
                    if widen {
                        before[i].advance + own[i]
                    } else {
                        before[i].advance - own[i]
                    },
                ));
            }
        }
    }
}

/// Justifying the first `k` lines and then unjustifying them restores every
/// cluster, and with it every advance. This holds where justification has
/// brought no advance to the top of the range, `u64::MAX`, where widening
/// stops.
pub proof fn lemma_justify_round_trip(
    clusters: Seq<ClusterData>,
    items: Seq<LineItemData>,
    lines: Seq<LineData>,
    k: int,
)
    requires
        forall|i: int|
            0 <= i < clusters.len() ==> (#[trigger] justified_upto(
                clusters,
                items,
                lines,
                k,
                true,
            )[i]).advance < u64::MAX,
    ensures
        justified_upto(justified_upto(clusters, items, lines, k, true), items, lines, k, false)
            == clusters,
{
    let wide = justified_upto(clusters, items, lines, k, true);
    let back = justified_upto(wide, items, lines, k, false);
    lemma_justified_shares(clusters, items, lines, k, true);
    lemma_justified_shares(wide, items, lines, k, false);
    lemma_layout_shares(spaces_of(clusters), items, lines, k);
    assert(spaces_of(wide) =~= spaces_of(clusters));
    assert forall|i: int| 0 <= i < clusters.len() implies #[trigger] back[i] == clusters[i] by {
        assert(wide[i] == (ClusterData { advance: wide[i].advance, ..clusters[i] }));
        assert(back[i] == (ClusterData { advance: back[i].advance, ..wide[i] }));
        assert(layout_shares(spaces_of(clusters), items, lines, k)[i] >= 0);
    }
    assert(back =~= clusters);
}

/// Justifying one line and then unjustifying it restores every cluster,
/// where justification has brought no advance to `u64::MAX`.
pub proof fn lemma_justify_line_round_trip(
    clusters: Seq<ClusterData>,
    items: Seq<LineItemData>,
    line: LineData,
)
    requires
        forall|i: int|
            0 <= i < clusters.len() ==> (#[trigger] justified_line(
                clusters,
                items,
                line,
                true,
            )[i]).advance < u64::MAX,
    ensures
        justified_line(justified_line(clusters, items, line, true), items, line, false)
            == clusters,
{
    let lines = seq![line];
    assert(justified_upto(clusters, items, lines, 0, true) == clusters);
    assert(justified_upto(clusters, items, lines, 1, true) == justified_line(
        clusters,
        items,
        line,
        true,
    ));
    let wide = justified_line(clusters, items, line, true);
    assert(justified_upto(wide, items, lines, 0, false) == wide);
    assert(justified_upto(wide, items, lines, 1, false) == justified_line(
        wide,
        items,
        line,
        false,
    ));
    lemma_justify_round_trip(clusters, items, lines, 1);
}

/// The order of a line rests on the items of the line alone.
pub proof fn lemma_line_order_agrees(
    items: Seq<LineItemData>,
    others: Seq<LineItemData>,
    lo: int,
    hi: int,
)
    requires
        0 <= lo,
        hi <= items.len(),
        hi <= others.len(),
        forall|p: int| lo <= p < hi ==> #[trigger] items[p] == others[p],
    ensures
        line_order(items, lo, hi) == line_order(others, lo, hi),
    decreases hi - lo,
{
    if lo < hi {
        lemma_line_order_agrees(items, others, lo + 1, hi);
    }
}

/// The justification of the first `k` lines rests on these lines and on
/// their items alone.
pub proof fn lemma_justified_agrees(
    clusters: Seq<ClusterData>,
    items: Seq<LineItemData>,
    lines: Seq<LineData>,
    other_items: Seq<LineItemData>,
    other_lines: Seq<LineData>,
    k: int,
    widen: bool,
)
    requires
        0 <= k <= lines.len(),
        k <= other_lines.len(),
        forall|j: int| 0 <= j < k ==> #[trigger] lines[j] == other_lines[j],
        forall|j: int|
            0 <= j < k ==> (#[trigger] lines[j]).run_range.end <= items.len()
                && lines[j].run_range.end <= other_items.len(),
        forall|j: int, p: int|
            0 <= j < k && (#[trigger] lines[j]).run_range.start <= p < lines[j].run_range.end
                ==> #[trigger] items[p] == other_items[p],
    ensures
        justified_upto(clusters, items, lines, k, widen) == justified_upto(
            clusters,
            other_items,
            other_lines,
            k,
            widen,
        ),
    decreases k,
{
    if k > 0 {
        lemma_justified_agrees(clusters, items, lines, other_items, other_lines, k - 1, widen);
        let line = lines[k - 1];
        assert forall|p: int| line.run_range.start <= p < line.run_range.end implies #[trigger] items[p]
            == other_items[p] by {
            assert(lines[k - 1].run_range.start <= p < lines[k - 1].run_range.end);
        }
        lemma_line_order_agrees(
            items,
            other_items,
            line.run_range.start as int,
            line.run_range.end as int,
        );
    }
}

/// The number of spaces among the first `p` clusters along `order`.
pub open spec fn spaces_met(spaces: Seq<bool>, order: Seq<int>, p: int) -> int
    decreases p,
{
    if p <= 0 {
        0
    } else if 0 <= order[p - 1] < spaces.len() && spaces[order[p - 1]] {
        spaces_met(spaces, order, p - 1) + 1
    } else {
        spaces_met(spaces, order, p - 1)
    }
}

/// The cluster at place `p` along `order` is among the first `count` spaces
/// that are met.
pub open spec fn is_among_first(spaces: Seq<bool>, order: Seq<int>, count: nat, p: int) -> bool {
    &&& 0 <= order[p] < spaces.len()
    &&& spaces[order[p]]
    &&& spaces_met(spaces, order, p) < count
}

/// No cluster stands twice along `order`, and all of them are clusters.
pub open spec fn is_visit(order: Seq<int>, len: int) -> bool {
    &&& forall|p: int| 0 <= p < order.len() ==> 0 <= #[trigger] order[p] < len
    &&& forall|p: int, q: int| 0 <= p < q < order.len() ==> order[p] != order[q]
}

proof fn lemma_spaces_met_skip(spaces: Seq<bool>, order: Seq<int>, p: int)
    requires
        1 <= p <= order.len(),
    ensures
        spaces_met(spaces, order, p) == spaces_met(spaces, order.skip(1), p - 1) + (if 0
            <= order[0] < spaces.len() && spaces[order[0]] {
            1int
        } else {
            0int
        }),
    decreases p,
{
    if p > 1 {
        lemma_spaces_met_skip(spaces, order, p - 1);
        assert(order.skip(1)[p - 2] == order[p - 1]);
    } else {
        assert(spaces_met(spaces, order, 0) == 0);
        assert(spaces_met(spaces, order.skip(1), 0) == 0);
    }
}

proof fn lemma_spaces_met_nonnegative(spaces: Seq<bool>, order: Seq<int>, p: int)
    ensures
        spaces_met(spaces, order, p) >= 0,
    decreases p,
{
    if p > 0 {
        lemma_spaces_met_nonnegative(spaces, order, p - 1);
    }
}

/// Along an order that visits no cluster twice, the share of a cluster is
/// `amount` if it is among the first `count` spaces that are met, and 0 if
/// it is not; a cluster that is not visited has no share.
pub proof fn lemma_shares_of_visit(spaces: Seq<bool>, order: Seq<int>, count: nat, amount: int)
    requires
        amount >= 0,
        is_visit(order, spaces.len() as int),
    ensures
        forall|p: int|
            0 <= p < order.len() ==> shares(spaces, order, count, amount)[#[trigger] order[p]]
                == (if is_among_first(spaces, order, count, p) {
                amount
            } else {
                0
            }),
        forall|i: int|
            0 <= i < spaces.len() && !order.contains(i) ==> #[trigger] shares(
                spaces,
                order,
                count,
                amount,
            )[i] == 0,
    decreases order.len(),
{
    lemma_shares(spaces, order, count, amount);
    let all = shares(spaces, order, count, amount);
    if order.len() == 0 {
    } else if count == 0 {
        assert forall|p: int| 0 <= p < order.len() implies !is_among_first(
            spaces,
            order,
            count,
            p,
        ) by {
            lemma_spaces_met_nonnegative(spaces, order, p);
        }
    } else {
        let head = order[0];
        let rest_order = order.skip(1);
        let chosen = spaces[head];
        let left: nat = if chosen {
            (count - 1) as nat
        } else {
            count
        };
        let rest = shares(spaces, rest_order, left, amount);
        assert(is_visit(rest_order, spaces.len() as int)) by {
            assert forall|p: int| 0 <= p < rest_order.len() implies 0 <= #[trigger] rest_order[p]
                < spaces.len() by {
                assert(rest_order[p] == order[p + 1]);
            }
            assert forall|p: int, q: int| 0 <= p < q < rest_order.len() implies rest_order[p]
                != rest_order[q] by {
                assert(rest_order[p] == order[p + 1]);
                assert(rest_order[q] == order[q + 1]);
            }
        }
        lemma_shares_of_visit(spaces, rest_order, left, amount);
        lemma_shares(spaces, rest_order, left, amount);
        assert(!rest_order.contains(head)) by {
            if rest_order.contains(head) {
                let q = choose|q: int| 0 <= q < rest_order.len() && rest_order[q] == head;
                assert(order[q + 1] == head);
            }
        }
        assert forall|p: int| 0 <= p < order.len() implies all[#[trigger] order[p]] == (
        if is_among_first(spaces, order, count, p) {
            amount
        } else {
            0
        }) by {
            if p == 0 {
                assert(spaces_met(spaces, order, 0) == 0);
                assert(rest[head] == 0);
            } else {
                lemma_spaces_met_skip(spaces, order, p);
                assert(rest_order[p - 1] == order[p]);
                assert(order[p] != head);
                assert(all[order[p]] == rest[order[p]]);
            }
        }
        assert forall|i: int| 0 <= i < spaces.len() && !order.contains(i) implies #[trigger] all[i]
            == 0 by {
            assert(i != head);
            if rest_order.contains(i) {
                let q = choose|q: int| 0 <= q < rest_order.len() && rest_order[q] == i;
                assert(order[q + 1] == i);
            }
            assert(all[i] == rest[i]);
        }
    }
}

/// Along an order that visits no cluster twice, justification resizes by
/// `amount` each of the first `count` spaces that are met, and changes no
/// other cluster.
pub proof fn lemma_spread_first_spaces(
    clusters: Seq<ClusterData>,
    order: Seq<int>,
    count: nat,
    amount: u64,
    widen: bool,
)
    requires
        is_visit(order, clusters.len() as int),
    ensures
        spread(clusters, order, count, amount, widen).len() == clusters.len(),
        forall|p: int|
            0 <= p < order.len() ==> spread(clusters, order, count, amount, widen)[
                #[trigger] order[p]] == (if is_among_first(
                spaces_of(clusters),
                order,
                count,
                p,
            ) {
                resized(clusters[order[p]], amount, widen)
            } else {
                clusters[order[p]]
            }),
        forall|i: int|
            0 <= i < clusters.len() && !order.contains(i) ==> #[trigger] spread(
                clusters,
                order,
                count,
                amount,
                widen,
            )[i] == clusters[i],
{
    lemma_spread_shares(clusters, order, count, amount, widen);
    lemma_shares_of_visit(spaces_of(clusters), order, count, amount as int);
    let wide = spread(clusters, order, count, amount, widen);
    assert forall|p: int| 0 <= p < order.len() implies wide[#[trigger] order[p]] == (
    if is_among_first(spaces_of(clusters), order, count, p) {
        resized(clusters[order[p]], amount, widen)
    } else {
        clusters[order[p]]
    }) by {
        let i = order[p];
        assert(wide[i] == (ClusterData { advance: wide[i].advance, ..clusters[i] }));
    }
    assert forall|i: int| 0 <= i < clusters.len() && !order.contains(i) implies #[trigger] wide[i]
        == clusters[i] by {
        assert(wide[i] == (ClusterData { advance: wide[i].advance, ..clusters[i] }));
    }
}

/// The order of a line whose items stand in the order of their clusters,
/// without an overlap, visits no cluster twice, and only clusters of the
/// line. The bidi levels of the items make no difference to this.
pub proof fn lemma_line_order_visits(items: Seq<LineItemData>, lo: int, hi: int, len: int)
    requires
        0 <= lo <= hi <= items.len(),
        forall|k: int|
            lo <= k < hi ==> 0 <= (#[trigger] items[k]).cluster_range.start
                <= items[k].cluster_range.end <= len,
        forall|j: int, k: int|
            lo <= j < k < hi ==> (#[trigger] items[j]).cluster_range.end <= (
            #[trigger] items[k]).cluster_range.start,
    ensures
        is_visit(line_order(items, lo, hi), len),
        forall|p: int|
            0 <= p < line_order(items, lo, hi).len() ==> lo < hi && items[lo].cluster_range.start
                <= #[trigger] line_order(items, lo, hi)[p] < items[hi - 1].cluster_range.end,
    decreases hi - lo,
{
    if lo < hi {
        lemma_line_order_visits(items, lo + 1, hi, len);
        let own = item_order(items[lo]);
        let rest = line_order(items, lo + 1, hi);
        let all = line_order(items, lo, hi);
        let range = items[lo].cluster_range;
        assert(all == own + rest);
        assert forall|p: int| 0 <= p < own.len() implies range.start <= #[trigger] own[p]
            < range.end by {}
        assert forall|p: int| 0 <= p < all.len() implies items[lo].cluster_range.start
            <= #[trigger] all[p] < items[hi - 1].cluster_range.end && 0 <= all[p] < len by {
            if p < own.len() {
                assert(all[p] == own[p]);
                assert(range.end <= items[hi - 1].cluster_range.end) by {
                    if lo < hi - 1 {
                        assert(items[lo].cluster_range.end <= items[hi - 1].cluster_range.start);
                    }
                }
            } else {
                assert(all[p] == rest[p - own.len()]);
                assert(items[lo].cluster_range.end <= items[lo + 1].cluster_range.start);
            }
        }
        assert forall|p: int, q: int| 0 <= p < q < all.len() implies all[p] != all[q] by {
            if q < own.len() {
                assert(all[p] == own[p]);
                assert(all[q] == own[q]);
            } else if p < own.len() {
                assert(all[p] == own[p]);
                assert(all[q] == rest[q - own.len()]);
                assert(items[lo].cluster_range.end <= items[lo + 1].cluster_range.start);
            } else {
                assert(all[p] == rest[p - own.len()]);
                assert(all[q] == rest[q - own.len()]);
            }
        }
    }
}

/// Justification of a line whose items stand in the order of their
/// clusters, without an overlap: each of the first `num_spaces` spaces of
/// the line, in the order in which they are met, is widened by the line's
/// adjustment, which is its free space divided by `num_spaces`; no other
/// cluster changes. Where the line is not justified, no cluster changes.
pub proof fn lemma_justified_line_first_spaces(
    clusters: Seq<ClusterData>,
    items: Seq<LineItemData>,
    line: LineData,
)
    requires
        line.run_range.start <= line.run_range.end <= items.len(),
        forall|k: int|
            line.run_range.start <= k < line.run_range.end ==> (
            #[trigger] items[k]).cluster_range.start <= items[k].cluster_range.end
                <= clusters.len(),
        forall|j: int, k: int|
            line.run_range.start <= j < k < line.run_range.end ==> (
            #[trigger] items[j]).cluster_range.end <= (#[trigger] items[k]).cluster_range.start,
    ensures
        !is_justified(line) ==> justified_line(clusters, items, line, true) == clusters,
        is_justified(line) ==> ({
            let order = line_order(items, line.run_range.start as int, line.run_range.end as int);
            let wide = justified_line(clusters, items, line, true);
            &&& wide.len() == clusters.len()
            &&& adjustment(line) == free_space(line) / (line.num_spaces as u64)
            &&& forall|p: int|
                0 <= p < order.len() ==> wide[#[trigger] order[p]] == (if is_among_first(
                    spaces_of(clusters),
                    order,
                    line.num_spaces as nat,
                    p,
                ) {
                    resized(clusters[order[p]], adjustment(line), true)
                } else {
                    clusters[order[p]]
                })
            &&& forall|i: int|
                0 <= i < clusters.len() && !order.contains(i) ==> #[trigger] wide[i]
                    == clusters[i]
        }),
{
    if is_justified(line) {
        let lo = line.run_range.start as int;
        let hi = line.run_range.end as int;
        lemma_line_order_visits(items, lo, hi, clusters.len() as int);
        lemma_spread_first_spaces(
            clusters,
            line_order(items, lo, hi),
            line.num_spaces as nat,
            adjustment(line),
            true,
        );
    }
}

} // verus!
