//! Laws of line breaking: what follows from the contracts of the breaker.

use vstd::prelude::*;
use crate::layout::line::consistency::{
    advance_matches, clusters_covered, item_in_bounds, lemma_commits, lemma_partition_bounds,
    lemma_partition_ordered,
};
use crate::layout::line::finalize::{
    broke_remaining, classified, finished, has_content, measured, placed, rounded_metrics,
    total_height, trailing_whitespace, visual_items, widest, Finishing,
};
use crate::layout::line::greedy::{BreakLines, BreakerState, LineState};
use crate::layout::line::reorder::lemma_reordered_single;
use crate::layout::line::step::{
    breaks_after, broke_next, broken_times, clamped, clip, is_kept, lemma_group_end, line_item,
    line_items, line_items_upto, reverted, Progress,
};
use crate::layout::{lemma_runs_ordered, Alignment, BreakReason, LayoutData};
use crate::span::Span;

verus! {

impl BreakLines {
    /// Calls of `break_next` only add to the committed lines and line
    /// items: those that stood before the call stand after it, in their
    /// places.
    pub proof fn lemma_break_next_keeps_lines(
        before: BreakLines,
        after: BreakLines,
        max_advance: u64,
        alignment: Alignment,
        r: Option<(u64, u64)>,
    )
        requires
            broke_next(before, after, max_advance, alignment, r),
        ensures
            before.lines.lines@.len() <= after.lines.lines@.len(),
            before.lines.line_items@.len() <= after.lines.line_items@.len(),
            after.lines.lines@.take(before.lines.lines@.len() as int) == before.lines.lines@,
            after.lines.line_items@.take(before.lines.line_items@.len() as int)
                == before.lines.line_items@,
    {
        assert(after.lines.lines@.take(before.lines.lines@.len() as int)
            =~= before.lines.lines@);
        assert(after.lines.line_items@.take(before.lines.line_items@.len() as int)
            =~= before.lines.line_items@);
    }

    /// The clusters that the committed lines cover are disjoint and stand
    /// in the order of the lines.
    pub proof fn lemma_lines_disjoint_in_order(&self, j: int, k: int)
        requires
            self.wf(),
            0 <= j < k < self.lines.lines@.len(),
        ensures
            clusters_covered(self.lines.line_items@, self.lines.lines@[j]).start
                <= clusters_covered(self.lines.line_items@, self.lines.lines@[j]).end,
            clusters_covered(self.lines.line_items@, self.lines.lines@[j]).end
                <= clusters_covered(self.lines.line_items@, self.lines.lines@[k]).start,
            clusters_covered(self.lines.line_items@, self.lines.lines@[k]).start
                <= clusters_covered(self.lines.line_items@, self.lines.lines@[k]).end,
    {
        let lines = self.lines.lines@;
        let items = self.lines.line_items@;
        lemma_partition_ordered(lines, items.len() as int, j, k);
        lemma_partition_bounds(lines, items.len() as int, j);
        lemma_partition_bounds(lines, items.len() as int, k);
        let first_j = items[lines[j].run_range.start as int];
        let last_j = items[lines[j].run_range.end - 1];
        let first_k = items[lines[k].run_range.start as int];
        let last_k = items[lines[k].run_range.end - 1];
        assert(item_in_bounds(&self.layout, first_j));
        assert(item_in_bounds(&self.layout, last_j));
        assert(item_in_bounds(&self.layout, first_k));
        assert(item_in_bounds(&self.layout, last_k));
    }

    /// The committed lines leave out no cluster: the first line begins with
    /// the first cluster of the layout, every other line begins where the
    /// line before it ends, and the line that is being filled begins where
    /// the last of them ends. In a layout that has text, every line item
    /// holds a cluster.
    pub proof fn lemma_lines_adjacent(&self, k: int)
        requires
            self.wf(),
            0 <= k < self.lines.lines@.len(),
        ensures
            clusters_covered(self.lines.line_items@, self.lines.lines@[k]).start == (if k == 0 {
                0
            } else {
                clusters_covered(self.lines.line_items@, self.lines.lines@[k - 1]).end as int
            }),
            k == self.lines.lines@.len() - 1 ==> clusters_covered(
                self.lines.line_items@,
                self.lines.lines@[k],
            ).end == self.state.line.clusters.start,
            self.layout.text_len != 0 ==> forall|p: int|
                self.lines.lines@[k].run_range.start <= p < self.lines.lines@[k].run_range.end ==> (
                #[trigger] self.lines.line_items@[p]).cluster_range.start
                    < self.lines.line_items@[p].cluster_range.end,
    {
        let lines = self.lines.lines@;
        let items = self.lines.line_items@;
        lemma_partition_bounds(lines, items.len() as int, k);
        if k > 0 {
            lemma_partition_bounds(lines, items.len() as int, k - 1);
            assert(lines[k - 1].run_range.end == lines[k].run_range.start);
            let j = lines[k].run_range.start - 1;
            assert(items[j].cluster_range.end == items[j + 1].cluster_range.start);
        }
    }

    /// The advance of a committed line is the sum of the advances of the
    /// clusters that it covers, as far as the range of coordinates holds it.
    pub proof fn lemma_line_advance(&self, k: int)
        requires
            self.wf(),
            0 <= k < self.lines.lines@.len(),
        ensures
            advance_matches(&self.layout, self.lines.line_items@, self.lines.lines@[k]),
    {
    }

    /// `break_next` and then `revert` leave the breaker as it was before the
    /// two calls: the same layout, state, lines and line items. This holds of
    /// a breaker that was not done.
    pub proof fn lemma_revert_restores(
        before: BreakLines,
        broken: BreakLines,
        after: BreakLines,
        max_advance: u64,
        alignment: Alignment,
        r: Option<(u64, u64)>,
        ok: bool,
    )
        requires
            before.wf(),
            !before.done,
            broke_next(before, broken, max_advance, alignment, r),
            reverted(broken, after, ok),
        ensures
            ok,
            after.layout == before.layout,
            after.progress() == before.progress(),
            after.done == before.done,
    {
        assert(broken.lines.lines@.take(before.state.lines as int) =~= before.lines.lines@);
        assert(broken.lines.line_items@.take(before.state.items as int)
            =~= before.lines.line_items@);
    }

    /// While a breaker looks for the next line, there is a line to commit
    /// wherever a group does not fit: the line that an overflow ends has an
    /// item, whichever kind of overflow it is. So a group joins the line only
    /// where it fits.
    pub proof fn lemma_overflow_commits(&self, max_advance: u64)
        requires
            self.scanning(max_advance),
            self.state.run_idx < self.layout.runs@.len(),
            self.state.cluster_idx < self.state.run_end(&self.layout),
        ensures
            line_items(&self.layout, self.state.overflow_line(&self.layout)).len() > 0,
    {
        let layout = &self.layout;
        let state = self.state;
        lemma_runs_ordered(
            layout.runs@,
            layout.clusters@.len() as int,
            state.run_idx as int,
            state.run_idx as int,
        );
        lemma_runs_ordered(
            layout.runs@,
            layout.clusters@.len() as int,
            state.line.runs.start as int,
            state.run_idx as int,
        );
        lemma_group_end(layout, state.cluster_idx as int, state.run_end(layout));
        assert(layout.runs@.len() == layout.runs.len());
        assert(layout.clusters@.len() == layout.clusters.len());
        let line = state.overflow_line(layout);
        let taken = state.taken(layout);
        assert(taken.runs.end == state.run_idx + 1);
        assert(taken.clusters.end == state.next_idx(layout));
        assert(clamped(layout, line) == line);
        let last = line.runs.end - 1;
        assert(is_kept(layout, clip(layout, line, last)));
        lemma_commits(layout, line, last, line.runs.end as int);
    }

    /// Between two calls the line begins within the clusters, or behind the
    /// last of them.
    pub proof fn lemma_line_start_in_bounds(&self)
        requires
            self.wf(),
        ensures
            self.state.line.clusters.start <= self.layout.clusters@.len(),
    {
        if self.state.run_idx < self.layout.runs@.len() {
            lemma_runs_ordered(
                self.layout.runs@,
                self.layout.clusters@.len() as int,
                self.state.run_idx as int,
                self.state.run_idx as int,
            );
        }
    }
}

/// What a call of `break_next` on a breaker that `n` calls have brought from
/// `origin` to `before` adds to the count.
pub proof fn lemma_broke_next_counts(
    before: BreakLines,
    after: BreakLines,
    origin: BreakLines,
    max_advance: u64,
    alignment: Alignment,
    r: Option<(u64, u64)>,
    n: nat,
)
    requires
        broke_next(before, after, max_advance, alignment, r),
        before.layout == origin.layout,
        (before.progress(), before.done) == broken_times(
            origin.progress(),
            origin.done,
            &origin.layout,
            max_advance,
            alignment,
            n,
        ),
    ensures
        r.is_some() == breaks_after(
            origin.progress(),
            origin.done,
            &origin.layout,
            max_advance,
            alignment,
            n,
        ),
        r.is_some() ==> (after.progress(), after.done) == broken_times(
            origin.progress(),
            origin.done,
            &origin.layout,
            max_advance,
            alignment,
            n + 1,
        ),
        r.is_some() ==> !before.done && (after.done || before.state.line.clusters.start
            < after.state.line.clusters.start),
        r.is_none() ==> after.lines.lines@ == before.lines.lines@ && after.lines.line_items@
            == before.lines.line_items@,
        after.layout == origin.layout,
{
    reveal_with_fuel(broken_times, 2);
    reveal(breaks_after);
}

/// A line none of whose runs has a cluster on it has no item.
pub proof fn lemma_no_items(layout: &LayoutData, line: LineState, to: int)
    requires
        forall|r: int| line.runs.start <= r < to ==> !is_kept(layout, #[trigger] clip(layout, line, r)),
    ensures
        line_items_upto(layout, line, to).len() == 0,
    decreases to - line.runs.start,
{
    if to > line.runs.start {
        lemma_no_items(layout, line, to - 1);
        assert(!is_kept(layout, clip(layout, line, to - 1)));
    }
}

/// In a layout that has text, a mandatory break at the very start of a line
/// does not break: the line that it would end has no item, so there is no
/// line to commit.
pub proof fn lemma_mandatory_at_line_start(layout: &LayoutData, state: BreakerState)
    requires
        layout.wf(),
        layout.text_len != 0,
        state.run_idx < layout.runs@.len(),
        state.cluster_idx < state.run_end(layout),
        layout.runs@[state.run_idx as int].cluster_range.start <= state.cluster_idx,
        state.line.is_fresh(layout, state.run_idx, state.cluster_idx),
    ensures
        line_items(layout, state.explicit_line()).len() == 0,
{
    let line = clamped(layout, state.explicit_line());
    let runs = layout.runs@;
    let count = layout.clusters@.len() as int;
    assert(layout.runs@.len() == layout.runs.len());
    lemma_runs_ordered(runs, count, state.run_idx as int, state.run_idx as int);
    assert forall|r: int| line.runs.start <= r < line.runs.end implies !is_kept(
        layout,
        #[trigger] clip(layout, line, r),
    ) by {
        lemma_runs_ordered(runs, count, line.runs.start as int, r);
        lemma_runs_ordered(runs, count, r, state.run_idx as int);
    }
    lemma_no_items(layout, line, line.runs.end as int);
}

/// A mandatory break ends one line and no more: the step at the cluster
/// that asks for it commits the line before the cluster for the reason
/// `Explicit`, if that line has an item; the cluster is then the first of
/// the line behind, where the break is passed over.
pub proof fn lemma_mandatory_break_once(
    layout: &LayoutData,
    progress: Progress,
    max_advance: u64,
    alignment: Alignment,
)
    requires
        progress.state.at_mandatory_break(layout),
        progress.state.cluster_idx <= layout.clusters@.len(),
        line_items(layout, progress.state.explicit_line()).len() > 0,
    ensures
        progress.step(layout, max_advance, alignment).1,
        ({
            let after = progress.step(layout, max_advance, alignment).0;
            &&& after.lines == progress.lines.push(after.lines.last())
            &&& after.lines.last().break_reason == BreakReason::Explicit
            &&& after.state.cluster_idx == progress.state.cluster_idx
            &&& after.state.line.clusters.start == progress.state.cluster_idx
            &&& !after.state.at_mandatory_break(layout)
        }),
{
    let after = progress.step(layout, max_advance, alignment).0;
    assert(after.lines =~= progress.lines.push(after.lines.last()));
}

/// A layout without clusters is broken into one line: the first call of
/// `break_next` commits it, for the reason `NoBreak` and with the advance
/// 0, with one line item, and the breaker is done. This holds of every
/// width and alignment.
pub proof fn lemma_empty_text_breaks_once(
    layout: &LayoutData,
    max_advance: u64,
    alignment: Alignment,
)
    requires
        layout.wf(),
        layout.text_len == 0,
    ensures
        ({
            let start = Progress {
                state: BreakerState::initial(),
                lines: Seq::empty(),
                line_items: Seq::empty(),
            };
            let broken = start.break_next(layout, max_advance, alignment);
            &&& broken.committed
            &&& broken.done
            &&& broken.progress.lines.len() == 1
            &&& broken.progress.line_items.len() == 1
            &&& broken.progress.lines[0].break_reason == BreakReason::NoBreak
            &&& broken.progress.lines[0].metrics.advance == 0
            &&& broken.progress.line_items[0].index == 0
            &&& broken.progress.line_items[0].cluster_range.start == 0
            &&& broken.progress.line_items[0].cluster_range.end == 0
        }),
{
    let start = Progress {
        state: BreakerState::initial(),
        lines: Seq::empty(),
        line_items: Seq::empty(),
    };
    lemma_scan_without_clusters(layout, start, max_advance, alignment);
    let reached = start.scan(layout, max_advance, alignment).0;
    let closing = reached.closing_line();
    let held = clamped(layout, closing);
    assert(closing.runs.end == 1);
    assert(is_kept(layout, clip(layout, held, 0)));
    assert(line_items_upto(layout, held, 0).len() == 0);
    assert(line_items_upto(layout, held, 1) == line_items_upto(layout, held, 0).push(
        line_item(layout, held, 0),
    ));
}

/// Where there are no clusters, the steps from the cursor on pass over the
/// runs and commit nothing.
pub proof fn lemma_scan_without_clusters(
    layout: &LayoutData,
    progress: Progress,
    max_advance: u64,
    alignment: Alignment,
)
    requires
        layout.wf(),
        layout.clusters@.len() == 0,
        progress.state.cluster_idx == 0,
    ensures
        !progress.scan(layout, max_advance, alignment).1,
        progress.scan(layout, max_advance, alignment).0.lines == progress.lines,
        progress.scan(layout, max_advance, alignment).0.line_items == progress.line_items,
        progress.scan(layout, max_advance, alignment).0.state.line == progress.state.line,
        progress.scan(layout, max_advance, alignment).0.state.cluster_idx == 0,
    decreases layout.runs@.len() - progress.state.run_idx,
{
    let state = progress.state;
    if state.run_idx < layout.runs@.len() {
        assert(layout.runs@.len() == layout.runs.len());
        lemma_runs_ordered(
            layout.runs@,
            layout.clusters@.len() as int,
            state.run_idx as int,
            state.run_idx as int,
        );
        let next = Progress {
            state: BreakerState { run_idx: (state.run_idx + 1) as usize, ..state },
            ..progress
        };
        lemma_scan_without_clusters(layout, next, max_advance, alignment);
    }
}

/// The layout of a text of nothing has one line, whatever the width and
/// the alignment: `break_remaining` from the start gives one line for the
/// reason `NoBreak` with one item, without clusters and without advance,
/// whose metrics are those of the first run in whole units. The width of the
/// layout is 0, and its height is the height of that line.
pub proof fn lemma_empty_text_layout(
    before: BreakLines,
    r: LayoutData,
    max_advance: u64,
    alignment: Alignment,
)
    requires
        before.layout.wf(),
        before.layout.text_len == 0,
        before.state == BreakerState::initial(),
        before.lines.lines@.len() == 0,
        before.lines.line_items@.len() == 0,
        !before.done,
        broke_remaining(before, r, max_advance, alignment),
    ensures
        r.lines@.len() == 1,
        r.line_items@.len() == 1,
        r.clusters@.len() == 0,
        r.lines@[0].break_reason == BreakReason::NoBreak,
        r.lines@[0].metrics.advance == 0,
        r.lines@[0].metrics.trailing_whitespace == 0,
        r.lines@[0].metrics.ascent == rounded_metrics(before.layout.runs@[0].metrics).ascent,
        r.lines@[0].metrics.descent == rounded_metrics(before.layout.runs@[0].metrics).descent,
        r.lines@[0].metrics.leading == rounded_metrics(before.layout.runs@[0].metrics).leading,
        r.line_items@[0].cluster_range.start == 0,
        r.line_items@[0].cluster_range.end == 0,
        widest(r.lines@, r.lines@.len() as int) == 0,
        total_height(r.lines@, r.lines@.len() as int) == r.lines@[0].spec_size(),
{
    let layout = &before.layout;
    let start = Progress {
        state: BreakerState::initial(),
        lines: Seq::empty(),
        line_items: Seq::empty(),
    };
    assert(before.progress().lines =~= start.lines);
    assert(before.progress().line_items =~= start.line_items);
    assert(before.progress() == start);
    lemma_empty_text_breaks_once(layout, max_advance, alignment);
    let broken = start.break_next(layout, max_advance, alignment);
    reveal_with_fuel(broken_times, 3);
    reveal(breaks_after);
    let n = choose|n: nat|
        {
            let reached = (#[trigger] broken_times(
                before.progress(),
                before.done,
                &before.layout,
                max_advance,
                alignment,
                n,
            )).0;
            &&& !breaks_after(
                before.progress(),
                before.done,
                &before.layout,
                max_advance,
                alignment,
                n,
            )
            &&& forall|m: nat|
                m < n ==> #[trigger] breaks_after(
                    before.progress(),
                    before.done,
                    &before.layout,
                    max_advance,
                    alignment,
                    m,
                )
            &&& r.lines@ == finished(&before.layout, reached.lines, reached.line_items).lines
            &&& r.line_items@ == finished(
                &before.layout,
                reached.lines,
                reached.line_items,
            ).line_items
            &&& r.clusters@ == finished(
                &before.layout,
                reached.lines,
                reached.line_items,
            ).clusters
            &&& r.lines@.len() == reached.lines.len()
        };
    assert(broken_times(start, false, layout, max_advance, alignment, 0) == (start, false));
    assert(broken_times(start, false, layout, max_advance, alignment, 1) == (
        broken.progress,
        true,
    ));
    assert(breaks_after(start, false, layout, max_advance, alignment, 0));
    assert(!breaks_after(start, false, layout, max_advance, alignment, 1));
    if n != 1 {
        if n > 1 {
            assert(breaks_after(start, false, layout, max_advance, alignment, 1));
        }
        assert(false);
    }
    let reached = broken.progress;
    let lines = reached.lines;
    let items = reached.line_items;
    let line = lines[0];
    let runs = layout.runs@;
    let styles = layout.styles@;
    let first = Finishing {
        lines,
        line_items: Seq::new(items.len(), |j: int| classified(layout.clusters@, items[j])),
        clusters: layout.clusters@,
        y: 0,
    };
    assert(finished(layout, lines, items) == first.finish_upto(runs, styles, 1));
    assert(first.finish_upto(runs, styles, 0) == first);
    let last = first.finish_line(runs, styles, 0);
    assert(first.finish_upto(runs, styles, 1) == last);
    assert(line.run_range == (Span { start: 0, end: 1 }));
    let logical = Seq::new(
        1,
        |j: int| measured(first.clusters, first.line_items, 0 + j, 1),
    );
    lemma_reordered_single(logical);
    assert(visual_items(first.clusters, first.line_items, line.run_range) == logical);
    assert(first.line_items[0].is_whitespace);
    assert(!has_content(first.line_items, 1, 1));
    assert(!has_content(first.line_items, 0, 1));
    assert(logical[0] == first.line_items[0]);
    assert(last.line_items =~= first.line_items.take(0) + logical + first.line_items.skip(1));
    assert(last.line_items[0] == logical[0]);
    assert(last.lines[0] == placed(
        line,
        last.lines[0].text_range,
        trailing_whitespace(first.clusters, last.line_items, line.run_range),
        first.raw_metrics(runs, styles, 0),
        0,
    ));
    assert(visual_items(first.clusters, first.line_items, line.run_range)[0].index == 0);
    assert(first.raw_metrics(runs, styles, 0) == runs[0].metrics);
    assert(widest(r.lines@, 0) == 0);
    assert(total_height(r.lines@, 0) == 0);
}

} // verus!
