//! Executable tests of what holds of a line breaker between two calls.

use vstd::prelude::*;
use crate::layout::line::consistency::{
    advance_matches, at_rest, clusters_covered, ends_in_hung_space, hangs_from,
    is_space_group, item_in_bounds, items_contiguous, items_end_at, items_end_by, items_in_order,
    lemma_partition_bounds, lines_partition, within_width,
};
use crate::layout::line::finalize::sum_advances;
use crate::layout::line::greedy::{BreakLines, BreakerState};
use crate::layout::line::step::{advance_sum, lemma_advance_sum_nonnegative, lemma_advance_sum_split};
use crate::layout::{BreakReason, LayoutData, LineData, LineItemData};
use crate::span::Span;
use crate::units::clamp;

verus! {

/// Items of which each begins where the one before it ends stand in the
/// order of their clusters.
pub proof fn lemma_contiguous_in_order(items: Seq<LineItemData>, j: int, k: int)
    requires
        0 <= j < k < items.len(),
        forall|i: int|
            0 <= i < items.len() ==> (#[trigger] items[i]).cluster_range.start
                <= items[i].cluster_range.end,
        forall|a: int, b: int|
            0 <= a && b == a + 1 && b < items.len() ==> (#[trigger] items[a]).cluster_range.end == (
            #[trigger] items[b]).cluster_range.start,
    ensures
        items[j].cluster_range.end <= items[k].cluster_range.start,
    decreases k - j,
{
    if j + 1 < k {
        lemma_contiguous_in_order(items, j + 1, k);
        assert(items[j].cluster_range.end == items[j + 1].cluster_range.start);
    } else {
        assert(items[j].cluster_range.end == items[k].cluster_range.start);
    }
}

/// Tells whether the line items lie within the layout and leave out no
/// cluster; see `items_in_order` and `items_contiguous`.
pub fn has_contiguous_items(layout: &LayoutData, items: &Vec<LineItemData>) -> (r: bool)
    ensures
        r == (items_in_order(layout, items@) && items_contiguous(layout, items@)),
{
    let mut k: usize = 0;
    while k < items.len()
        invariant
            k <= items@.len(),
            forall|i: int| 0 <= i < k ==> item_in_bounds(layout, #[trigger] items@[i]),
            k > 0 ==> items@[0].cluster_range.start == 0,
            forall|a: int, b: int|
                0 <= a && b == a + 1 && b < k ==> (#[trigger] items@[a]).cluster_range.end == (
                #[trigger] items@[b]).cluster_range.start,
            layout.text_len != 0 ==> forall|i: int|
                0 <= i < k ==> (#[trigger] items@[i]).cluster_range.start
                    < items@[i].cluster_range.end,
        decreases items@.len() - k,
    {
        let item = &items[k];
        let range = item.cluster_range;
        if range.start > range.end || range.end > layout.clusters.len() || item.index
            >= layout.runs.len() {
            assert(!item_in_bounds(layout, items@[k as int]));
            return false;
        }
        if k == 0 && range.start != 0 {
            return false;
        }
        if k > 0 && items[k - 1].cluster_range.end != range.start {
            return false;
        }
        if layout.text_len != 0 && range.start >= range.end {
            return false;
        }
        k += 1;
    }
    proof {
        assert forall|j: int, i: int| 0 <= j < i < items@.len() implies (
        #[trigger] items@[j]).cluster_range.end <= (#[trigger] items@[i]).cluster_range.start by {
            assert forall|i: int| 0 <= i < items@.len() implies (
            #[trigger] items@[i]).cluster_range.start <= items@[i].cluster_range.end by {
                assert(item_in_bounds(layout, items@[i]));
            }
            lemma_contiguous_in_order(items@, j, i);
        }
    }
    true
}

/// Tells whether the first `count` lines share out the first `item_count`
/// line items among them; see `lines_partition`.
pub fn has_partition(lines: &Vec<LineData>, count: usize, item_count: usize) -> (r: bool)
    requires
        count <= lines@.len(),
    ensures
        r == lines_partition(lines@.take(count as int), item_count as int),
{
    let ghost first = lines@.take(count as int);
    if count == 0 {
        return item_count == 0;
    }
    assert(first[0] == lines@[0]);
    assert(first[count - 1] == lines@[count - 1]);
    if lines[0].run_range.start != 0 || lines[count - 1].run_range.end != item_count {
        return false;
    }
    let mut k: usize = 0;
    while k < count
        invariant
            k <= count <= lines@.len(),
            first == lines@.take(count as int),
            forall|i: int|
                0 <= i < k ==> (#[trigger] first[i]).run_range.start < first[i].run_range.end,
            forall|a: int, b: int|
                0 <= a && b == a + 1 && b < count && a < k ==> (#[trigger] first[a]).run_range.end
                    == (#[trigger] first[b]).run_range.start,
        decreases count - k,
    {
        let range = lines[k].run_range;
        assert(first[k as int] == lines@[k as int]);
        if range.start >= range.end {
            return false;
        }
        if k + 1 < count {
            assert(first[k + 1] == lines@[k + 1]);
            if range.end != lines[k + 1].run_range.start {
                return false;
            }
        }
        k += 1;
    }
    true
}

/// Tells whether the line ends in a space that hangs over its width; see
/// `ends_in_hung_space`.
pub fn has_hung_space(layout: &LayoutData, last: &LineItemData, line: &LineData) -> (r: bool)
    requires
        last.cluster_range.start <= last.cluster_range.end <= layout.clusters@.len(),
    ensures
        r == ends_in_hung_space(layout, *last, *line),
{
    let end = last.cluster_range.end;
    let mut from = end;
    let mut sum: u64 = 0;
    while from > last.cluster_range.start
        invariant
            last.cluster_range.start <= from <= end <= layout.clusters@.len(),
            end == last.cluster_range.end,
            sum == clamp(advance_sum(layout.clusters@, from as int, end as int)),
            forall|k: int|
                from < k < end ==> (#[trigger] layout.clusters@[k]).is_ligature_continuation,
            forall|w: int| from <= w ==> !#[trigger] hangs_from(layout, *last, *line, w),
        decreases from,
    {
        if from < end && !layout.clusters[from].is_ligature_continuation {
            proof {
                assert forall|w: int| !#[trigger] hangs_from(layout, *last, *line, w) by {
                    if w < from && is_space_group(layout.clusters@, w, end as int) {
                        assert(layout.clusters@[from as int].is_ligature_continuation);
                    }
                }
            }
            return false;
        }
        proof {
            lemma_advance_sum_split(layout.clusters@, from - 1, from as int, end as int);
            lemma_advance_sum_nonnegative(layout.clusters@, from as int, end as int);
            assert(advance_sum(layout.clusters@, from - 1, from - 1) == 0);
        }
        from -= 1;
        sum = layout.clusters[from].advance.saturating_add(sum);
        if layout.clusters[from].info.whitespace.is_space_or_nbsp() && line.metrics.advance as u128
            <= line.max_advance as u128 + sum as u128 {
            assert(hangs_from(layout, *last, *line, from as int));
            return true;
        }
    }
    proof {
        assert forall|w: int| !#[trigger] hangs_from(layout, *last, *line, w) by {}
    }
    false
}

/// Tells whether the line is within its width; see `within_width`.
pub fn is_within_width(layout: &LayoutData, items: &Vec<LineItemData>, line: &LineData) -> (r:
    bool)
    requires
        forall|i: int| 0 <= i < items@.len() ==> item_in_bounds(layout, #[trigger] items@[i]),
    ensures
        r == within_width(layout, items@, *line),
{
    let emergency = match line.break_reason {
        BreakReason::Emergency => true,
        _ => false,
    };
    if emergency || line.metrics.advance <= line.max_advance {
        return true;
    }
    if line.run_range.end == 0 || line.run_range.end > items.len() {
        return false;
    }
    let last = &items[line.run_range.end - 1];
    assert(item_in_bounds(layout, *last));
    has_hung_space(layout, last, line)
}

/// Tells whether the advance of the line is the sum of the advances of its
/// clusters; see `advance_matches`.
pub fn has_matching_advance(layout: &LayoutData, items: &Vec<LineItemData>, line: &LineData) -> (r:
    bool)
    requires
        line.run_range.start < line.run_range.end <= items@.len(),
        forall|i: int| 0 <= i < items@.len() ==> item_in_bounds(layout, #[trigger] items@[i]),
    ensures
        r == advance_matches(layout, items@, *line),
{
    let first = &items[line.run_range.start];
    let last = &items[line.run_range.end - 1];
    assert(item_in_bounds(layout, *last));
    let covered = Span { start: first.cluster_range.start, end: last.cluster_range.end };
    assert(covered == clusters_covered(items@, *line));
    line.metrics.advance == sum_advances(&layout.clusters, covered)
}

/// Tells whether the state is one between two calls; see `at_rest`.
pub fn is_at_rest(layout: &LayoutData, state: &BreakerState) -> (r: bool)
    ensures
        r == at_rest(layout, *state),
{
    let run_count = layout.runs.len();
    let cursor = if state.run_idx < run_count {
        let range = layout.runs[state.run_idx].cluster_range;
        range.start <= state.cluster_idx && state.cluster_idx <= range.end
    } else {
        state.run_idx == run_count && state.cluster_idx == layout.clusters.len()
    };
    if !cursor || state.prev_boundary.is_some() {
        return false;
    }
    let line = &state.line;
    if line.x != 0 || line.num_spaces != 0 || line.clusters.start != state.cluster_idx {
        return false;
    }
    if line.clusters.end < line.clusters.start || line.clusters.end - line.clusters.start > 1 {
        return false;
    }
    if line.runs.start >= run_count || line.runs.start > state.run_idx || line.runs.end
        > run_count {
        return false;
    }
    if line.runs.end == 0 && line.runs.start != 0 {
        return false;
    }
    if line.runs.end != 0 && line.runs.start >= line.runs.end {
        return false;
    }
    let first = layout.runs[line.runs.start].cluster_range;
    first.start <= line.clusters.start && line.clusters.start <= first.end
}

/// Tells whether the first `count` line items end exactly at cluster `end`;
/// see `items_end_at`.
pub fn has_items_ending_at(items: &Vec<LineItemData>, count: usize, end: usize) -> (r: bool)
    requires
        count <= items@.len(),
    ensures
        r == items_end_at(items@.take(count as int), end as int),
{
    if count == 0 {
        end == 0
    } else {
        assert(items@.take(count as int)[count - 1] == items@[count - 1]);
        items[count - 1].cluster_range.end == end
    }
}

/// Items in order that end at a cluster all end by it.
pub proof fn lemma_items_end_by(layout: &LayoutData, items: Seq<LineItemData>, count: int, end: int)
    requires
        items_in_order(layout, items),
        0 <= count <= items.len(),
        items_end_at(items.take(count), end),
    ensures
        items_end_by(items.take(count), end),
{
    let first = items.take(count);
    assert forall|k: int| 0 <= k < first.len() implies (#[trigger] first[k]).cluster_range.end
        <= end by {
        assert(first[k] == items[k]);
        assert(first[count - 1] == items[count - 1]);
        assert(item_in_bounds(layout, items[count - 1]));
        if k < count - 1 {
            assert(items[k].cluster_range.end <= items[count - 1].cluster_range.start);
        }
    }
}

impl BreakLines {
    /// Tells whether the committed lines are in order; see `lines_wf`.
    pub fn has_lines_in_order(&self) -> (r: bool)
        ensures
            r == self.lines_wf(),
    {
        if !self.layout.is_well_formed() || self.layout.lines.len() != 0
            || self.layout.line_items.len() != 0 {
            return false;
        }
        if !has_contiguous_items(&self.layout, &self.lines.line_items) {
            return false;
        }
        proof {
            assert(self.lines.lines@.take(self.lines.lines@.len() as int) =~= self.lines.lines@);
        }
        if !has_partition(&self.lines.lines, self.lines.lines.len(), self.lines.line_items.len()) {
            return false;
        }
        let mut k: usize = 0;
        while k < self.lines.lines.len()
            invariant
                k <= self.lines.lines@.len(),
                lines_partition(self.lines.lines@, self.lines.line_items@.len() as int),
                forall|i: int|
                    0 <= i < self.lines.line_items@.len() ==> item_in_bounds(
                        &self.layout,
                        #[trigger] self.lines.line_items@[i],
                    ),
                forall|i: int|
                    0 <= i < k ==> within_width(
                        &self.layout,
                        self.lines.line_items@,
                        #[trigger] self.lines.lines@[i],
                    ),
                forall|i: int|
                    0 <= i < k ==> advance_matches(
                        &self.layout,
                        self.lines.line_items@,
                        #[trigger] self.lines.lines@[i],
                    ),
            decreases self.lines.lines@.len() - k,
        {
            let line = &self.lines.lines[k];
            proof {
                lemma_partition_bounds(
                    self.lines.lines@,
                    self.lines.line_items@.len() as int,
                    k as int,
                );
            }
            if !is_within_width(&self.layout, &self.lines.line_items, line) {
                return false;
            }
            if !has_matching_advance(&self.layout, &self.lines.line_items, line) {
                return false;
            }
            k += 1;
        }
        true
    }

    /// Tells whether `revert` can go back to `snapshot`; see `snapshot_ok`.
    pub fn has_snapshot(&self, snapshot: &BreakerState) -> (r: bool)
        requires
            self.lines_wf(),
        ensures
            r == self.snapshot_ok(*snapshot),
    {
        if !is_at_rest(&self.layout, snapshot) || snapshot.lines > self.lines.lines.len()
            || snapshot.items > self.lines.line_items.len() {
            return false;
        }
        if !has_partition(&self.lines.lines, snapshot.lines, snapshot.items) {
            return false;
        }
        let r = has_items_ending_at(
            &self.lines.line_items,
            snapshot.items,
            snapshot.line.clusters.start,
        );
        proof {
            if r {
                lemma_items_end_by(
                    &self.layout,
                    self.lines.line_items@,
                    snapshot.items as int,
                    snapshot.line.clusters.start as int,
                );
            }
        }
        r
    }

    /// Tells whether the breaker is as it is between two calls; see `wf`.
    pub fn is_well_formed(&self) -> (r: bool)
        ensures
            r == self.wf(),
    {
        if !self.has_lines_in_order() || !is_at_rest(&self.layout, &self.state) {
            return false;
        }
        if self.state.items != self.lines.line_items.len() || self.state.lines
            != self.lines.lines.len() {
            return false;
        }
        proof {
            assert(self.lines.line_items@.take(self.lines.line_items@.len() as int)
                =~= self.lines.line_items@);
        }
        if !has_items_ending_at(
            &self.lines.line_items,
            self.lines.line_items.len(),
            self.state.line.clusters.start,
        ) {
            return false;
        }
        proof {
            lemma_items_end_by(
                &self.layout,
                self.lines.line_items@,
                self.lines.line_items@.len() as int,
                self.state.line.clusters.start as int,
            );
        }
        match &self.prev_state {
            Some(snapshot) => self.has_snapshot(snapshot),
            None => true,
        }
    }
}

} // verus!
