//! What holds of a line breaker between its steps, and why the steps keep it.

use vstd::prelude::*;
use crate::layout::line::greedy::{BreakLines, BreakerState, LineState};
use crate::layout::line::step::{
    advance_sum, clamped, clip, is_kept, line_item, line_items, line_items_upto, Progress,
};
use crate::layout::{
    lemma_runs_ordered, Alignment, BreakReason, ClusterData, LayoutData, LineData, LineItemData,
};
use crate::span::Span;
use crate::units::clamp;

verus! {

/// The item lies within the clusters and names a run of the layout.
pub open spec fn item_in_bounds(layout: &LayoutData, item: LineItemData) -> bool {
    &&& item.cluster_range.start <= item.cluster_range.end <= layout.clusters@.len()
    &&& item.index < layout.runs@.len()
}

/// The line items lie within the layout, and their clusters stand in the
/// order of the items, without an overlap.
pub open spec fn items_in_order(layout: &LayoutData, items: Seq<LineItemData>) -> bool {
    &&& forall|k: int| 0 <= k < items.len() ==> item_in_bounds(layout, #[trigger] items[k])
    &&& forall|j: int, k: int|
        0 <= j < k < items.len() ==> (#[trigger] items[j]).cluster_range.end <= (
        #[trigger] items[k]).cluster_range.start
}

/// Every line has an item, and the lines share out the first `item_count`
/// line items among them in order.
pub open spec fn lines_partition(lines: Seq<LineData>, item_count: int) -> bool {
    &&& forall|k: int|
        0 <= k < lines.len() ==> (#[trigger] lines[k]).run_range.start < lines[k].run_range.end
    &&& forall|j: int, k: int|
        0 <= j && k == j + 1 && k < lines.len() ==> (#[trigger] lines[j]).run_range.end == (
        #[trigger] lines[k]).run_range.start
    &&& lines.len() > 0 ==> lines[0].run_range.start == 0
    &&& item_count == (if lines.len() == 0 {
        0
    } else {
        lines[lines.len() - 1].run_range.end as int
    })
}

/// The clusters `[from, end)` are a group that is broken as one and that a
/// space begins: a space, and behind it clusters that continue a ligature.
pub open spec fn is_space_group(clusters: Seq<ClusterData>, from: int, end: int) -> bool {
    &&& 0 <= from < end <= clusters.len()
    &&& clusters[from].info.whitespace.is_space_or_nbsp()
    &&& forall|k: int| from < k < end ==> (#[trigger] clusters[k]).is_ligature_continuation
}

/// The line hangs a space of its last item from cluster `from` on: the
/// clusters from there to the end of the item are a group that a space
/// begins, and without that group the line's advance is at most
/// `max_advance`.
pub open spec fn hangs_from(layout: &LayoutData, last: LineItemData, line: LineData, from: int) -> bool {
    &&& last.cluster_range.start <= from
    &&& is_space_group(layout.clusters@, from, last.cluster_range.end as int)
    &&& line.metrics.advance <= line.max_advance + clamp(
        advance_sum(layout.clusters@, from, last.cluster_range.end as int),
    )
}

/// The line ends in a space that hangs over its width; see `hangs_from`.
pub open spec fn ends_in_hung_space(layout: &LayoutData, last: LineItemData, line: LineData) -> bool {
    exists|from: int| #[trigger] hangs_from(layout, last, line, from)
}

/// The line was broken in an emergency, or fits the width that it was broken
/// for, or would fit it without the space that hangs at its end.
pub open spec fn within_width(layout: &LayoutData, items: Seq<LineItemData>, line: LineData) -> bool {
    ||| line.break_reason == BreakReason::Emergency
    ||| line.metrics.advance <= line.max_advance
    ||| (0 < line.run_range.end <= items.len() && ends_in_hung_space(
        layout,
        items[line.run_range.end - 1],
        line,
    ))
}

/// The clusters that a line covers: from the first cluster of its first
/// item to the last cluster of its last item.
pub open spec fn clusters_covered(items: Seq<LineItemData>, line: LineData) -> Span {
    Span {
        start: items[line.run_range.start as int].cluster_range.start,
        end: items[line.run_range.end - 1].cluster_range.end,
    }
}

/// The advance of the line is the sum of the advances of the clusters that
/// it covers, as far as the range of coordinates holds it.
pub open spec fn advance_matches(layout: &LayoutData, items: Seq<LineItemData>, line: LineData) -> bool {
    line.metrics.advance == clamp(
        advance_sum(
            layout.clusters@,
            clusters_covered(items, line).start as int,
            clusters_covered(items, line).end as int,
        ),
    )
}

/// The line items leave out no cluster: the first begins with the first
/// cluster of the layout, and each of the others begins where the one before
/// it ends. In a layout that has text, every item holds a cluster.
pub open spec fn items_contiguous(layout: &LayoutData, items: Seq<LineItemData>) -> bool {
    &&& items.len() > 0 ==> items[0].cluster_range.start == 0
    &&& forall|j: int, k: int|
        0 <= j && k == j + 1 && k < items.len() ==> (#[trigger] items[j]).cluster_range.end == (
        #[trigger] items[k]).cluster_range.start
    &&& layout.text_len != 0 ==> forall|k: int|
        0 <= k < items.len() ==> (#[trigger] items[k]).cluster_range.start
            < items[k].cluster_range.end
}

/// The items end exactly at cluster `end`: the last of them ends there, or
/// there is none and `end` is 0.
pub open spec fn items_end_at(items: Seq<LineItemData>, end: int) -> bool {
    if items.len() == 0 {
        end == 0
    } else {
        items[items.len() - 1].cluster_range.end == end
    }
}

/// What holds of the lines that a breaker has committed.
pub open spec fn lines_ok(layout: &LayoutData, lines: Seq<LineData>, items: Seq<LineItemData>) -> bool {
    &&& items_in_order(layout, items)
    &&& items_contiguous(layout, items)
    &&& lines_partition(lines, items.len() as int)
    &&& forall|k: int| 0 <= k < lines.len() ==> within_width(layout, items, #[trigger] lines[k])
    &&& forall|k: int| 0 <= k < lines.len() ==> advance_matches(layout, items, #[trigger] lines[k])
}

/// Every item ends at or before cluster `bound`.
pub open spec fn items_end_by(items: Seq<LineItemData>, bound: int) -> bool {
    forall|k: int| 0 <= k < items.len() ==> (#[trigger] items[k]).cluster_range.end <= bound
}

impl LineState {
    /// The line can be committed: it has a run, its first run holds the start
    /// of its clusters and its last run their end.
    pub open spec fn committable(self, layout: &LayoutData) -> bool {
        &&& self.runs.start < self.runs.end <= layout.runs@.len()
        &&& layout.runs@[self.runs.start as int].cluster_range.start <= self.clusters.start
            <= layout.runs@[self.runs.start as int].cluster_range.end
        &&& self.clusters.start <= self.clusters.end <= layout.clusters@.len()
        &&& layout.runs@[self.runs.end - 1].cluster_range.start <= self.clusters.end
            <= layout.runs@[self.runs.end - 1].cluster_range.end
    }

    /// No cluster was taken since the line began at the cursor.
    pub open spec fn is_fresh(self, layout: &LayoutData, run_idx: usize, cluster_idx: usize) -> bool {
        &&& self.x == 0
        &&& self.num_spaces == 0
        &&& self.clusters.start == cluster_idx
        &&& self.clusters.start <= self.clusters.end <= self.clusters.start + 1
        &&& self.runs.start < layout.runs@.len()
        &&& self.runs.start <= run_idx
        &&& self.runs.end <= layout.runs@.len()
        &&& (self.runs.end == 0 ==> self.runs.start == 0)
        &&& (self.runs.end != 0 ==> self.runs.start < self.runs.end)
        &&& layout.runs@[self.runs.start as int].cluster_range.start <= self.clusters.start
            <= layout.runs@[self.runs.start as int].cluster_range.end
    }

    /// The line holds the clusters from its start up to the cursor.
    pub open spec fn is_started(self, layout: &LayoutData, run_idx: usize, cluster_idx: usize) -> bool {
        &&& self.clusters.start < self.clusters.end
        &&& self.clusters.end == cluster_idx
        &&& self.runs.end <= run_idx + 1
        &&& self.num_spaces <= cluster_idx
        &&& self.committable(layout)
        &&& layout.runs@[self.runs.end - 1].cluster_range.start < self.clusters.end
        &&& self.x == clamp(
            advance_sum(layout.clusters@, self.clusters.start as int, self.clusters.end as int),
        )
    }

    /// The line is fresh or started.
    pub open spec fn is_open(self, layout: &LayoutData, run_idx: usize, cluster_idx: usize) -> bool {
        self.is_fresh(layout, run_idx, cluster_idx) || self.is_started(layout, run_idx, cluster_idx)
    }
}

/// The cursor stands within its run, or behind the last run and cluster.
pub open spec fn cursor_ok(layout: &LayoutData, run_idx: usize, cluster_idx: usize) -> bool {
    if run_idx < layout.runs@.len() {
        layout.runs@[run_idx as int].cluster_range.start <= cluster_idx
            <= layout.runs@[run_idx as int].cluster_range.end
    } else {
        run_idx == layout.runs@.len() && cluster_idx == layout.clusters@.len()
    }
}

/// What the items of a committable line are like: they lie within the
/// layout, stand in order, begin at or behind the line's first cluster, and
/// those of the runs before run `to` end by where that run begins.
#[verifier::rlimit(40)]
pub proof fn lemma_line_items(layout: &LayoutData, line: LineState, to: int)
    requires
        layout.wf(),
        line.committable(layout),
        line.runs.start <= to <= line.runs.end,
    ensures
        items_in_order(layout, line_items_upto(layout, line, to)),
        items_end_by(
            line_items_upto(layout, line, to),
            if to == line.runs.start {
                line.clusters.start as int
            } else if to == line.runs.end {
                line.clusters.end as int
            } else {
                layout.runs@[to - 1].cluster_range.end as int
            },
        ),
        forall|k: int|
            0 <= k < line_items_upto(layout, line, to).len() ==> line.clusters.start <= (
            #[trigger] line_items_upto(layout, line, to)[k]).cluster_range.start,
        to > line.runs.start && is_kept(layout, clip(layout, line, to - 1)) ==> line_items_upto(
            layout,
            line,
            to,
        ).len() > 0 && line_items_upto(layout, line, to).last() == line_item(layout, line, to - 1),
        layout.text_len != 0 && line_items_upto(layout, line, to).len() > 0
            ==> line.clusters.start < line.clusters.end,
    decreases to - line.runs.start,
{
    let runs = layout.runs@;
    let count = layout.clusters@.len() as int;
    if to > line.runs.start {
        lemma_line_items(layout, line, to - 1);
        lemma_runs_ordered(runs, count, line.runs.start as int, to - 1);
        lemma_runs_ordered(runs, count, to - 1, line.runs.end - 1);
        if to - 1 > line.runs.start {
            lemma_runs_ordered(runs, count, to - 2, to - 1);
        }
        let before = line_items_upto(layout, line, to - 1);
        let all = line_items_upto(layout, line, to);
        let bound = if to == line.runs.end {
            line.clusters.end as int
        } else {
            runs[to - 1].cluster_range.end as int
        };
        if is_kept(layout, clip(layout, line, to - 1)) {
            let item = line_item(layout, line, to - 1);
            assert(all == before.push(item));
            assert forall|k: int| 0 <= k < all.len() implies item_in_bounds(
                layout,
                #[trigger] all[k],
            ) && all[k].cluster_range.end <= bound && line.clusters.start
                <= all[k].cluster_range.start by {
                if k < before.len() {
                    assert(all[k] == before[k]);
                }
            }
            assert forall|j: int, k: int| 0 <= j < k < all.len() implies (
            #[trigger] all[j]).cluster_range.end <= (#[trigger] all[k]).cluster_range.start by {
                assert(all[j] == before[j]);
                if k < before.len() {
                    assert(all[k] == before[k]);
                }
            }
        } else {
            assert(all == before);
            assert forall|k: int| 0 <= k < all.len() implies (
            #[trigger] all[k]).cluster_range.end <= bound by {
                assert(all[k] == before[k]);
            }
        }
    }
}

/// Committing a committable line that begins behind the items committed so
/// far, and that is within its width, leaves the committed lines in order.
#[verifier::rlimit(40)]
pub proof fn lemma_commit(
    layout: &LayoutData,
    progress: Progress,
    line: LineState,
    next: BreakerState,
    max_advance: u64,
    alignment: Alignment,
    break_reason: BreakReason,
)
    requires
        layout.wf(),
        clamped(layout, line).committable(layout),
        lines_ok(layout, progress.lines, progress.line_items),
        items_end_by(progress.line_items, line.clusters.start as int),
        items_end_at(progress.line_items, line.clusters.start as int),
        line_items(layout, line).len() > 0,
        progress.line_items.len() + line_items(layout, line).len() <= usize::MAX,
        progress.lines.len() < usize::MAX,
        line.x == clamp(
            advance_sum(
                layout.clusters@,
                line.clusters.start as int,
                clamped(layout, line).clusters.end as int,
            ),
        ),
        within_width(
            layout,
            progress.line_items + line_items(layout, line),
            progress.commit(layout, line, next, max_advance, alignment, break_reason).lines.last(),
        ),
    ensures
        ({
            let after = progress.commit(layout, line, next, max_advance, alignment, break_reason);
            &&& lines_ok(layout, after.lines, after.line_items)
            &&& items_end_by(after.line_items, clamped(layout, line).clusters.end as int)
            &&& items_end_at(after.line_items, clamped(layout, line).clusters.end as int)
            &&& after.lines.len() == progress.lines.len() + 1
            &&& after.line_items.len() > progress.line_items.len()
        }),
{
    let after = progress.commit(layout, line, next, max_advance, alignment, break_reason);
    let held = clamped(layout, line);
    let added = line_items(layout, line);
    let items = after.line_items;
    let lines = after.lines;
    lemma_line_items(layout, held, held.runs.end as int);
    assert forall|k: int| 0 <= k < items.len() implies item_in_bounds(layout, #[trigger] items[k])
        && items[k].cluster_range.end <= held.clusters.end by {
        if k < progress.line_items.len() {
            assert(items[k] == progress.line_items[k]);
        } else {
            assert(items[k] == added[k - progress.line_items.len()]);
        }
    }
    assert forall|j: int, k: int| 0 <= j < k < items.len() implies (
    #[trigger] items[j]).cluster_range.end <= (#[trigger] items[k]).cluster_range.start by {
        let n = progress.line_items.len();
        if k < n {
            assert(items[j] == progress.line_items[j]);
            assert(items[k] == progress.line_items[k]);
        } else if j < n {
            assert(items[j] == progress.line_items[j]);
            assert(items[k] == added[k - n]);
        } else {
            assert(items[j] == added[j - n]);
            assert(items[k] == added[k - n]);
        }
    }
    assert forall|k: int| 0 <= k < lines.len() implies within_width(
        layout,
        items,
        #[trigger] lines[k],
    ) by {
        if k < progress.lines.len() {
            let old_line = progress.lines[k];
            assert(lines[k] == old_line);
            assert(within_width(layout, progress.line_items, old_line));
            assert(old_line.run_range.end <= progress.line_items.len()) by {
                lemma_partition_bounds(progress.lines, progress.line_items.len() as int, k);
            }
            if 0 < old_line.run_range.end {
                assert(items[old_line.run_range.end - 1] == progress.line_items[old_line.run_range.end
                    - 1]);
            }
        }
    }
    lemma_line_items_span(layout, held, held.runs.end as int);
    assert(items_contiguous(layout, items)) by {
        let n = progress.line_items.len() as int;
        assert(items[n] == added[0]);
        if n > 0 {
            assert(items[0] == progress.line_items[0]);
            assert(items[n - 1] == progress.line_items[n - 1]);
        }
        assert forall|j: int, k: int| 0 <= j && k == j + 1 && k < items.len() implies (
        #[trigger] items[j]).cluster_range.end == (#[trigger] items[k]).cluster_range.start by {
            if k < n {
                assert(items[j] == progress.line_items[j]);
                assert(items[k] == progress.line_items[k]);
            } else if j < n {
                assert(items[j] == progress.line_items[n - 1]);
                assert(items[k] == added[0]);
            } else {
                assert(items[j] == added[j - n]);
                assert(items[k] == added[k - n]);
            }
        }
        if layout.text_len != 0 {
            assert forall|k: int| 0 <= k < items.len() implies (
            #[trigger] items[k]).cluster_range.start < items[k].cluster_range.end by {
                if k < n {
                    assert(items[k] == progress.line_items[k]);
                } else {
                    assert(items[k] == added[k - n]);
                    assert(is_kept(layout, added[k - n].cluster_range));
                }
            }
        }
    }
    assert(items[items.len() - 1] == added.last());
    assert forall|k: int| 0 <= k < lines.len() implies advance_matches(
        layout,
        items,
        #[trigger] lines[k],
    ) by {
        let n = progress.line_items.len();
        if k < progress.lines.len() {
            let old_line = progress.lines[k];
            assert(lines[k] == old_line);
            assert(advance_matches(layout, progress.line_items, old_line));
            lemma_partition_bounds(progress.lines, n as int, k);
            assert(items[old_line.run_range.start as int] == progress.line_items[old_line.run_range.start as int]);
            assert(items[old_line.run_range.end - 1] == progress.line_items[old_line.run_range.end
                - 1]);
        } else {
            assert(items[n as int] == added[0]);
            assert(items[items.len() - 1] == added.last());
        }
    }
    assert forall|j: int, k: int| 0 <= j && k == j + 1 && k < lines.len() implies (
    #[trigger] lines[j]).run_range.end == (#[trigger] lines[k]).run_range.start by {
        if k < progress.lines.len() {
            assert(lines[j] == progress.lines[j]);
            assert(lines[k] == progress.lines[k]);
        } else {
            assert(lines[j] == progress.lines[j]);
        }
    }
    assert forall|k: int| 0 <= k < lines.len() implies (#[trigger] lines[k]).run_range.start
        < lines[k].run_range.end by {
        if k < progress.lines.len() {
            assert(lines[k] == progress.lines[k]);
        }
    }
    if progress.lines.len() > 0 {
        assert(lines[0] == progress.lines[0]);
    }
}

/// Each line of a partition ends within the items, and the lines stand in
/// the order of their items.
pub proof fn lemma_partition_bounds(lines: Seq<LineData>, item_count: int, k: int)
    requires
        lines_partition(lines, item_count),
        0 <= k < lines.len(),
    ensures
        lines[k].run_range.start < lines[k].run_range.end <= item_count,
    decreases lines.len() - k,
{
    if k + 1 < lines.len() {
        lemma_partition_bounds(lines, item_count, k + 1);
        assert(lines[k].run_range.end == lines[k + 1].run_range.start);
    }
}

/// A line gets an item from each of its runs that has clusters on it.
pub proof fn lemma_commits(layout: &LayoutData, line: LineState, r: int, to: int)
    requires
        line.runs.start <= r < to <= line.runs.end,
        is_kept(layout, clip(layout, line, r)),
    ensures
        line_items_upto(layout, line, to).len() > 0,
    decreases to - r,
{
    if r < to - 1 {
        lemma_commits(layout, line, r, to - 1);
    }
}

/// The state between two calls of the breaker: the cursor is in place, the
/// line is fresh, and no boundary is remembered.
pub open spec fn at_rest(layout: &LayoutData, state: BreakerState) -> bool {
    &&& cursor_ok(layout, state.run_idx, state.cluster_idx)
    &&& state.line.is_fresh(layout, state.run_idx, state.cluster_idx)
    &&& state.prev_boundary.is_none()
}

impl BreakLines {
    /// The layout is shaped and holds no lines of its own, and the committed
    /// lines are in order.
    pub open spec fn lines_wf(&self) -> bool {
        &&& self.layout.wf()
        &&& self.layout.lines@.len() == 0
        &&& self.layout.line_items@.len() == 0
        &&& lines_ok(&self.layout, self.lines.lines@, self.lines.line_items@)
    }

    /// `revert` can go back to `snapshot`: it is a state at rest, and the
    /// lines that were committed when it was taken are still there.
    pub open spec fn snapshot_ok(&self, snapshot: BreakerState) -> bool {
        &&& at_rest(&self.layout, snapshot)
        &&& snapshot.lines <= self.lines.lines@.len()
        &&& snapshot.items <= self.lines.line_items@.len()
        &&& lines_partition(self.lines.lines@.take(snapshot.lines as int), snapshot.items as int)
        &&& items_end_by(
            self.lines.line_items@.take(snapshot.items as int),
            snapshot.line.clusters.start as int,
        )
        &&& items_end_at(
            self.lines.line_items@.take(snapshot.items as int),
            snapshot.line.clusters.start as int,
        )
    }

    /// What holds of a breaker between two calls.
    pub open spec fn wf(&self) -> bool {
        &&& self.lines_wf()
        &&& at_rest(&self.layout, self.state)
        &&& items_end_by(self.lines.line_items@, self.state.line.clusters.start as int)
        &&& items_end_at(self.lines.line_items@, self.state.line.clusters.start as int)
        &&& self.state.items == self.lines.line_items@.len()
        &&& self.state.lines == self.lines.lines@.len()
        &&& match self.prev_state {
            Some(snapshot) => self.snapshot_ok(snapshot),
            None => true,
        }
    }

    /// The boundary that is remembered lies on the line that is being filled
    /// and was open when it was seen, within the width.
    pub open spec fn prev_boundary_ok(&self, max_advance: u64) -> bool {
        match self.state.prev_boundary {
            Some(prev) => {
                &&& prev.run_idx < self.layout.runs@.len()
                &&& self.layout.runs@[prev.run_idx as int].cluster_range.start <= prev.cluster_idx
                    < self.layout.runs@[prev.run_idx as int].cluster_range.end
                &&& prev.state.clusters.start == self.state.line.clusters.start
                &&& prev.state.runs.start == self.state.line.runs.start
                &&& prev.state.is_open(&self.layout, prev.run_idx, prev.cluster_idx)
                &&& prev.state.x <= max_advance
            },
            None => true,
        }
    }

    /// What holds of a breaker while it looks for the next line.
    pub open spec fn scanning(&self, max_advance: u64) -> bool {
        &&& self.lines_wf()
        &&& cursor_ok(&self.layout, self.state.run_idx, self.state.cluster_idx)
        &&& self.state.line.is_open(&self.layout, self.state.run_idx, self.state.cluster_idx)
        &&& self.state.line.x <= max_advance
        &&& self.prev_boundary_ok(max_advance)
        &&& items_end_by(self.lines.line_items@, self.state.line.clusters.start as int)
        &&& items_end_at(self.lines.line_items@, self.state.line.clusters.start as int)
        &&& self.state.items == self.lines.line_items@.len()
        &&& self.state.lines == self.lines.lines@.len()
        &&& match self.prev_state {
            Some(snapshot) => {
                &&& at_rest(&self.layout, snapshot)
                &&& snapshot.items == self.state.items
                &&& snapshot.lines == self.state.lines
                &&& snapshot.line.clusters.start == self.state.line.clusters.start
            },
            None => false,
        }
    }
}

/// The lines and items that stood when a state was kept are in order as
/// those that stand now.
pub proof fn lemma_lines_ok_take(
    layout: &LayoutData,
    lines: Seq<LineData>,
    items: Seq<LineItemData>,
    line_count: int,
    item_count: int,
)
    requires
        lines_ok(layout, lines, items),
        0 <= line_count <= lines.len(),
        0 <= item_count <= items.len(),
        lines_partition(lines.take(line_count), item_count),
    ensures
        lines_ok(layout, lines.take(line_count), items.take(item_count)),
{
    let fewer = lines.take(line_count);
    let kept = items.take(item_count);
    assert forall|k: int| 0 <= k < fewer.len() implies within_width(
        layout,
        kept,
        #[trigger] fewer[k],
    ) by {
        assert(fewer[k] == lines[k]);
        lemma_partition_bounds(fewer, item_count, k);
        assert(within_width(layout, items, lines[k]));
        assert(kept[fewer[k].run_range.end - 1] == items[fewer[k].run_range.end - 1]);
    }
    assert forall|k: int| 0 <= k < fewer.len() implies advance_matches(
        layout,
        kept,
        #[trigger] fewer[k],
    ) by {
        assert(fewer[k] == lines[k]);
        lemma_partition_bounds(fewer, item_count, k);
        assert(advance_matches(layout, items, lines[k]));
        assert(kept[fewer[k].run_range.start as int] == items[fewer[k].run_range.start as int]);
        assert(kept[fewer[k].run_range.end - 1] == items[fewer[k].run_range.end - 1]);
    }
    assert(items_contiguous(layout, kept)) by {
        if kept.len() > 0 {
            assert(kept[0] == items[0]);
        }
        assert forall|j: int, k: int| 0 <= j && k == j + 1 && k < kept.len() implies (
        #[trigger] kept[j]).cluster_range.end == (#[trigger] kept[k]).cluster_range.start by {
            assert(kept[j] == items[j]);
            assert(kept[k] == items[k]);
        }
        if layout.text_len != 0 {
            assert forall|k: int| 0 <= k < kept.len() implies (
            #[trigger] kept[k]).cluster_range.start < kept[k].cluster_range.end by {
                assert(kept[k] == items[k]);
            }
        }
    }
    assert forall|k: int| 0 <= k < kept.len() implies item_in_bounds(layout, #[trigger] kept[k]) by {
        assert(kept[k] == items[k]);
    }
    assert forall|j: int, k: int| 0 <= j < k < kept.len() implies (
    #[trigger] kept[j]).cluster_range.end <= (#[trigger] kept[k]).cluster_range.start by {
        assert(kept[j] == items[j]);
        assert(kept[k] == items[k]);
    }
}

/// The lines of a partition stand in the order of their items.
pub proof fn lemma_partition_ordered(lines: Seq<LineData>, item_count: int, j: int, k: int)
    requires
        lines_partition(lines, item_count),
        0 <= j < k < lines.len(),
    ensures
        lines[j].run_range.end <= lines[k].run_range.start,
    decreases k - j,
{
    if j + 1 < k {
        lemma_partition_ordered(lines, item_count, j + 1, k);
        assert(lines[j].run_range.end == lines[j + 1].run_range.start);
    }
}

/// Where the items of the runs of a line before run `to` end, at the latest.
pub open spec fn items_bound(layout: &LayoutData, line: LineState, to: int) -> int {
    if to == line.runs.start {
        line.clusters.start as int
    } else if to == line.runs.end {
        line.clusters.end as int
    } else {
        layout.runs@[to - 1].cluster_range.end as int
    }
}

/// The items of a committable line leave out no cluster at its ends: the
/// first item begins with the first cluster of the line, and the items of the
/// runs before run `to` end where that run begins.
pub proof fn lemma_line_items_span(layout: &LayoutData, line: LineState, to: int)
    requires
        layout.wf(),
        line.committable(layout),
        line.runs.start <= to <= line.runs.end,
    ensures
        line_items_upto(layout, line, to).len() == 0 ==> items_bound(layout, line, to)
            == line.clusters.start,
        line_items_upto(layout, line, to).len() > 0 ==> line_items_upto(
            layout,
            line,
            to,
        )[0].cluster_range.start == line.clusters.start && line_items_upto(
            layout,
            line,
            to,
        ).last().cluster_range.end == items_bound(layout, line, to),
        forall|j: int, k: int|
            0 <= j && k == j + 1 && k < line_items_upto(layout, line, to).len() ==> (
            #[trigger] line_items_upto(layout, line, to)[j]).cluster_range.end == (
            #[trigger] line_items_upto(layout, line, to)[k]).cluster_range.start,
        forall|k: int|
            0 <= k < line_items_upto(layout, line, to).len() ==> is_kept(
                layout,
                (#[trigger] line_items_upto(layout, line, to)[k]).cluster_range,
            ),
    decreases to - line.runs.start,
{
    let runs = layout.runs@;
    let count = layout.clusters@.len() as int;
    if to > line.runs.start {
        lemma_line_items_span(layout, line, to - 1);
        lemma_runs_ordered(runs, count, line.runs.start as int, to - 1);
        lemma_runs_ordered(runs, count, to - 1, line.runs.end - 1);
        if to - 1 > line.runs.start {
            lemma_runs_ordered(runs, count, to - 2, to - 1);
            assert(runs[to - 2].cluster_range.end == runs[to - 1].cluster_range.start);
        }
        let before = line_items_upto(layout, line, to - 1);
        let all = line_items_upto(layout, line, to);
        if is_kept(layout, clip(layout, line, to - 1)) {
            assert(all == before.push(line_item(layout, line, to - 1)));
            if before.len() > 0 {
                assert(all[0] == before[0]);
            }
            assert forall|j: int, k: int| 0 <= j && k == j + 1 && k < all.len() implies (
            #[trigger] all[j]).cluster_range.end == (#[trigger] all[k]).cluster_range.start by {
                assert(all[j] == before[j]);
                if k < before.len() {
                    assert(all[k] == before[k]);
                }
            }
            assert forall|k: int| 0 <= k < all.len() implies is_kept(
                layout,
                (#[trigger] all[k]).cluster_range,
            ) by {
                if k < before.len() {
                    assert(all[k] == before[k]);
                }
            }
        } else {
            assert(all == before);
        }
    }
}

} // verus!
