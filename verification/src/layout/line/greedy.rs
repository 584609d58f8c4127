//! Greedy line breaking.

use vstd::prelude::*;
use crate::layout::line::consistency::{
    at_rest, cursor_ok, hangs_from, is_space_group, items_end_at, items_end_by, lemma_commit,
    lemma_commits, lemma_line_items, lemma_lines_ok_take,
};
use crate::layout::line::finalize::{broke_remaining, fullest, total_height, widest};
use crate::layout::line::justify::{justified_upto, lemma_justified_keeps, unjustify};
use crate::layout::line::laws::lemma_broke_next_counts;
use crate::layout::line::step::{
    advance_sum, breaks_after, broke_next, broken_times, clamped, clip, committed_line,
    continuation_end, is_kept, lemma_advance_sum_nonnegative, lemma_advance_sum_split,
    lemma_group_end, line_item, line_items, line_items_upto, reverted, rolled, Progress,
};
use crate::layout::{
    lemma_runs_ordered, Alignment, Boundary, BreakReason, LayoutData, LayoutItemKind, LineData,
    LineItemData, LineMetrics,
};
use crate::span::Span;
use crate::units::clamp;

verus! {

/// The lines of a layout and their items, while a breaker works on them.
pub struct LineLayout {
    pub lines: Vec<LineData>,
    pub line_items: Vec<LineItemData>,
}

impl LineLayout {
    /// Exchanges the lines and line items with those of `layout`.
    pub fn swap(&mut self, layout: &mut LayoutData)
        ensures
            final(self).lines == old(layout).lines,
            final(self).line_items == old(layout).line_items,
            *final(layout) == (LayoutData {
                lines: old(self).lines,
                line_items: old(self).line_items,
                ..*old(layout)
            }),
    {
        core::mem::swap(&mut self.lines, &mut layout.lines);
        core::mem::swap(&mut self.line_items, &mut layout.line_items);
    }
}

/// The line that is being filled.
#[derive(Clone, Copy, Debug, PartialEq, Eq, Structural)]
pub struct LineState {
    /// The advance of the clusters taken so far.
    pub x: u64,
    pub runs: Span,
    pub clusters: Span,
    /// A mandatory break directly after a line was committed is passed over.
    pub skip_mandatory_break: bool,
    pub num_spaces: usize,
}

/// The last place seen at which the line may be broken.
#[derive(Clone, Copy, Debug, PartialEq, Eq, Structural)]
pub struct PrevBoundaryState {
    pub run_idx: usize,
    pub cluster_idx: usize,
    pub state: LineState,
}

/// The state of a line breaker: where it stands in the layout, and the line
/// that it fills.
#[derive(Clone, Copy, Debug, PartialEq, Eq, Structural)]
pub struct BreakerState {
    /// The number of line items that were committed when the line began.
    pub items: usize,
    /// The number of lines that were committed when the line began.
    pub lines: usize,
    /// The run that the cursor is in.
    pub run_idx: usize,
    /// The cluster that the cursor is at.
    pub cluster_idx: usize,
    pub line: LineState,
    pub prev_boundary: Option<PrevBoundaryState>,
}

/// Ends the line `state` for `break_reason`: appends its items to
/// `lines.line_items`, and, where there is at least one, the line to
/// `lines.lines`; `state` then begins the next line. Without an item
/// there is nothing to commit, and only the end of the line's clusters is
/// held within the layout.
pub fn commit_line(
    layout: &LayoutData,
    lines: &mut LineLayout,
    state: &mut LineState,
    max_advance: u64,
    alignment: Alignment,
    break_reason: BreakReason,
) -> (ok: bool)
    requires
        layout.wf(),
        old(state).runs.start < old(state).runs.end <= layout.runs@.len(),
    ensures
        ok == (line_items(layout, *old(state)).len() > 0),
        final(lines).line_items@ == old(lines).line_items@ + line_items(layout, *old(state)),
        ok ==> final(lines).lines@ == old(lines).lines@.push(
            committed_line(
                Span {
                    start: old(lines).line_items@.len() as usize,
                    end: final(lines).line_items@.len() as usize,
                },
                *old(state),
                max_advance,
                alignment,
                break_reason,
            ),
        ),
        ok ==> *final(state) == rolled(clamped(layout, *old(state))),
        !ok ==> final(lines).lines@ == old(lines).lines@,
        !ok ==> *final(state) == clamped(layout, *old(state)),
{
    let is_empty = layout.text_len == 0;

    if state.clusters.end > layout.clusters.len() {
        state.clusters.end = layout.clusters.len();
    }
    let ghost line = *state;
    assert(line == clamped(layout, *old(state)));

    let last_run = state.runs.end - 1;
    let runs_start = lines.line_items.len();
    let mut r = state.runs.start;
    while r < state.runs.end
        invariant
            layout.wf(),
            *state == line,
            line.runs.start <= r <= line.runs.end <= layout.runs@.len(),
            line.clusters.end <= layout.clusters@.len(),
            last_run == line.runs.end - 1,
            is_empty == (layout.text_len == 0),
            lines.lines == old(lines).lines,
            lines.line_items@ == old(lines).line_items@ + line_items_upto(layout, line, r as int),
        decreases line.runs.end - r,
    {
        let run_data = &layout.runs[r];
        let mut cluster_range = run_data.cluster_range;
        if r == state.runs.start {
            cluster_range.start = state.clusters.start;
        }
        if r == last_run {
            cluster_range.end = state.clusters.end;
        }
        assert(cluster_range == clip(layout, line, r as int));
        proof {
            lemma_runs_ordered(
                layout.runs@,
                layout.clusters@.len() as int,
                r as int,
                r as int,
            );
        }

        // Skip empty/invalid clusters
        if cluster_range.start > cluster_range.end || (!is_empty && cluster_range.start
            == cluster_range.end) {
            r += 1;
            continue ;
        }
        // Push run to line

        let text_range = if cluster_range.start < cluster_range.end {
            let first_cluster = &layout.clusters[cluster_range.start];
            let last_cluster = &layout.clusters[cluster_range.end - 1];
            Span { start: first_cluster.text_range.start, end: last_cluster.text_range.end }
        } else {
            Span { start: 0, end: 0 }
        };

        let line_run = LineItemData {
            kind: LayoutItemKind::TextRun,
            index: r,
            bidi_level: run_data.bidi_level,
            is_whitespace: false,
            has_trailing_whitespace: false,
            cluster_range,
            text_range,
            advance: 0,
        };
        assert(line_run == line_item(layout, line, r as int));
        lines.line_items.push(line_run);
        proof {
            assert(lines.line_items@ =~= old(lines).line_items@ + line_items_upto(
                layout,
                line,
                r + 1,
            ));
        }
        r += 1;
    }
    let runs_end = lines.line_items.len();

    // If no runs have been added to the line then there is nothing to commit.
    if runs_start == runs_end {
        return false;
    }
    let mut num_spaces = state.num_spaces;
    if break_reason == BreakReason::Regular {
        num_spaces = num_spaces.saturating_sub(1);
    }
    let line_data = LineData {
        run_range: Span { start: runs_start, end: runs_end },
        max_advance,
        alignment,
        break_reason,
        num_spaces,
        text_range: Span { start: 0, end: 0 },
        metrics: LineMetrics {
            advance: state.x,
            trailing_whitespace: 0,
            ascent: 0,
            descent: 0,
            leading: 0,
            offset: 0,
            baseline: 0,
        },
    };
    lines.lines.push(line_data);
    state.clusters.start = state.clusters.end;
    state.clusters.end += 1;
    state.runs.start = state.runs.end - 1;
    state.num_spaces = 0;
    true
}

/// Line breaking support for a paragraph.
///
/// The breaker owns the layout while it works: `new` takes it, and `finish`
/// or `break_remaining` hands it back with its lines.
pub struct BreakLines {
    pub layout: LayoutData,
    pub lines: LineLayout,
    pub state: BreakerState,
    pub prev_state: Option<BreakerState>,
    pub done: bool,
}

impl BreakLines {
    /// The state of the breaker with the lines and line items that it has
    /// committed.
    pub open spec fn progress(&self) -> Progress {
        Progress {
            state: self.state,
            lines: self.lines.lines@,
            line_items: self.lines.line_items@,
        }
    }

    /// Reset state when a line has been committed.
    fn start_new_line(&mut self) -> (r: Option<(u64, u64)>)
        requires
            old(self).lines.lines@.len() > 0,
        ensures
            final(self).layout == old(self).layout,
            final(self).lines == old(self).lines,
            final(self).prev_state == old(self).prev_state,
            final(self).done == old(self).done,
            final(self).state == (BreakerState {
                items: old(self).lines.line_items@.len() as usize,
                lines: old(self).lines.lines@.len() as usize,
                line: LineState { x: 0, ..old(self).state.line },
                ..old(self).state
            }),
            r == Some(
                (
                    old(self).lines.lines@.last().metrics.advance,
                    old(self).lines.lines@.last().spec_size(),
                ),
            ),
    {
        self.state.items = self.lines.line_items.len();
        self.state.lines = self.lines.lines.len();
        self.state.line.x = 0;
        self.last_line_data()
    }

    fn last_line_data(&self) -> (r: Option<(u64, u64)>)
        requires
            self.lines.lines@.len() > 0,
        ensures
            r == Some(
                (self.lines.lines@.last().metrics.advance, self.lines.lines@.last().spec_size()),
            ),
    {
        let line = &self.lines.lines[self.lines.lines.len() - 1];
        Some((line.metrics.advance, line.size()))
    }

    /// The advance of the group at the cursor, and where the group ends.
    fn measure_group(&self) -> (r: (u64, usize))
        requires
            self.layout.wf(),
            self.state.run_idx < self.layout.runs@.len(),
            self.state.cluster_idx < self.state.run_end(&self.layout),
        ensures
            r.1 == self.state.next_idx(&self.layout),
            r.0 == clamp(advance_sum(self.layout.clusters@, self.state.cluster_idx as int, r.1 as int)),
            self.state.cluster_idx < r.1 <= self.state.run_end(&self.layout),
    {
        let cluster_end = self.layout.runs[self.state.run_idx].cluster_range.end;
        proof {
            lemma_runs_ordered(
                self.layout.runs@,
                self.layout.clusters@.len() as int,
                self.state.run_idx as int,
                self.state.run_idx as int,
            );
            lemma_group_end(&self.layout, self.state.cluster_idx as int, cluster_end as int);
        }
        let cluster = &self.layout.clusters[self.state.cluster_idx];
        let mut advance = cluster.advance;
        let mut next_idx = self.state.cluster_idx + 1;
        assert(advance_sum(self.layout.clusters@, self.state.cluster_idx as int, next_idx as int)
            == advance) by {
            assert(advance_sum(self.layout.clusters@, self.state.cluster_idx as int, next_idx - 1) == 0);
        }
        if cluster.is_ligature_start {
            while next_idx < cluster_end && self.layout.clusters[next_idx].is_ligature_continuation
                invariant
                    self.state.cluster_idx < next_idx <= cluster_end <= self.layout.clusters@.len(),
                    advance == clamp(
                        advance_sum(self.layout.clusters@, self.state.cluster_idx as int, next_idx as int),
                    ),
                    continuation_end(&self.layout, next_idx as int, cluster_end as int)
                        == continuation_end(
                        &self.layout,
                        self.state.cluster_idx + 1,
                        cluster_end as int,
                    ),
                decreases cluster_end - next_idx,
            {
                proof {
                    lemma_advance_sum_nonnegative(
                        self.layout.clusters@,
                        self.state.cluster_idx as int,
                        next_idx as int,
                    );
                }
                advance = advance.saturating_add(self.layout.clusters[next_idx].advance);
                next_idx += 1;
            }
        }
        (advance, next_idx)
    }

    /// Commits `line` for `break_reason`, if it has an item, and begins the
    /// next line at the cursor `(run_idx, cluster_idx)`. Returns the advance
    /// and size of the line where it was committed; else nothing changes.
    #[verifier::rlimit(40)]
    fn commit(
        &mut self,
        line: LineState,
        run_idx: usize,
        cluster_idx: usize,
        max_advance: u64,
        alignment: Alignment,
        break_reason: BreakReason,
        Ghost(hung_from): Ghost<int>,
    ) -> (r: Option<(u64, u64)>)
        requires
            old(self).lines_wf(),
            items_end_by(old(self).lines.line_items@, line.clusters.start as int),
            items_end_at(old(self).lines.line_items@, line.clusters.start as int),
            old(self).state.items == old(self).lines.line_items@.len(),
            old(self).state.lines == old(self).lines.lines@.len(),
            match old(self).prev_state {
                Some(snapshot) => {
                    &&& at_rest(&old(self).layout, snapshot)
                    &&& snapshot.items == old(self).state.items
                    &&& snapshot.lines == old(self).state.lines
                    &&& snapshot.line.clusters.start == line.clusters.start
                },
                None => false,
            },
            clamped(&old(self).layout, line).committable(&old(self).layout),
            line.x == clamp(
                advance_sum(
                    old(self).layout.clusters@,
                    line.clusters.start as int,
                    clamped(&old(self).layout, line).clusters.end as int,
                ),
            ),
            cursor_ok(&old(self).layout, run_idx, cluster_idx),
            cluster_idx == clamped(&old(self).layout, line).clusters.end,
            line.runs.end <= run_idx + 1,
            break_reason == BreakReason::Emergency || line.x <= max_advance || ({
                &&& line.clusters.end <= old(self).layout.clusters@.len()
                &&& line.clusters.start <= hung_from
                &&& old(self).layout.runs@[line.runs.end - 1].cluster_range.start <= hung_from
                &&& is_space_group(old(self).layout.clusters@, hung_from, line.clusters.end as int)
                &&& line.x <= max_advance + clamp(
                    advance_sum(old(self).layout.clusters@, hung_from, line.clusters.end as int),
                )
            }),
        ensures
            final(self).layout == old(self).layout,
            final(self).prev_state == old(self).prev_state,
            final(self).done == old(self).done,
            r.is_some() == (line_items(&old(self).layout, line).len() > 0),
            r.is_none() ==> {
                &&& final(self).lines.lines@ == old(self).lines.lines@
                &&& final(self).lines.line_items@ == old(self).lines.line_items@
                &&& final(self).state == old(self).state
            },
            r.is_some() && old(self).layout.text_len != 0 ==> line.clusters.start
                < final(self).state.line.clusters.start,
            r matches Some(data) ==> {
                &&& final(self).wf()
                &&& final(self).progress() == old(self).progress().commit(
                    &old(self).layout,
                    line,
                    BreakerState {
                        run_idx,
                        cluster_idx,
                        line: rolled(clamped(&old(self).layout, line)),
                        prev_boundary: None,
                        ..old(self).state
                    },
                    max_advance,
                    alignment,
                    break_reason,
                )
                &&& final(self).lines.lines@.len() == old(self).lines.lines@.len() + 1
                &&& final(self).lines.lines@.drop_last() == old(self).lines.lines@
                &&& final(self).lines.line_items@.len() > old(self).lines.line_items@.len()
                &&& final(self).lines.line_items@.take(old(self).lines.line_items@.len() as int)
                    == old(self).lines.line_items@
                &&& data.0 == final(self).lines.lines@.last().metrics.advance
                &&& data.1 == final(self).lines.lines@.last().spec_size()
            },
    {
        let ghost before = self.progress();
        let ghost snapshot = self.prev_state.unwrap();
        let ghost held = clamped(&self.layout, line);
        let ghost next = BreakerState {
            run_idx,
            cluster_idx,
            line: rolled(held),
            prev_boundary: None,
            ..self.state
        };
        let mut rolling = line;
        if !commit_line(
            &self.layout,
            &mut self.lines,
            &mut rolling,
            max_advance,
            alignment,
            break_reason,
        ) {
            assert(self.lines.line_items@ =~= before.line_items);
            return None;
        }
        self.state.line = rolling;
        self.state.prev_boundary = None;
        self.state.run_idx = run_idx;
        self.state.cluster_idx = cluster_idx;
        proof {
            assert(self.lines.line_items@.len() == self.lines.line_items.len());
            assert(self.lines.lines@.len() == self.lines.lines.len());
            let after = before.commit(
                &self.layout,
                line,
                next,
                max_advance,
                alignment,
                break_reason,
            );
            lemma_line_items(&self.layout, held, held.runs.end as int);
            lemma_runs_ordered(
                self.layout.runs@,
                self.layout.clusters@.len() as int,
                held.runs.end - 1,
                held.runs.end - 1,
            );
            if break_reason != BreakReason::Emergency && line.x > max_advance {
                assert(held == line);
                assert(is_kept(&self.layout, clip(&self.layout, held, held.runs.end - 1)));
                let added = line_items(&self.layout, line);
                assert(added.last() == line_item(&self.layout, held, held.runs.end - 1));
                assert(after.line_items.last() == added.last());
                assert(hangs_from(&self.layout, added.last(), after.lines.last(), hung_from));
            }
            lemma_commit(&self.layout, before, line, next, max_advance, alignment, break_reason);
        }
        let r = self.start_new_line();
        proof {
            assert(self.lines.lines@.drop_last() =~= before.lines);
            assert(self.lines.line_items@.take(before.line_items.len() as int)
                =~= before.line_items);
            assert(self.lines.lines@.take(snapshot.lines as int) =~= before.lines);
            assert(self.lines.line_items@.take(snapshot.items as int) =~= before.line_items);
        }
        r
    }

    /// Deals with the boundary of the cluster at the cursor: a mandatory
    /// break commits the line before the cluster, a line boundary is
    /// remembered. Returns the advance and size of the line where one was
    /// committed.
    #[verifier::rlimit(40)]
    fn mark_boundary(&mut self, max_advance: u64, alignment: Alignment) -> (r: Option<(u64, u64)>)
        requires
            old(self).scanning(max_advance),
            old(self).state.run_idx < old(self).layout.runs@.len(),
            old(self).state.cluster_idx < old(self).state.run_end(&old(self).layout),
        ensures
            r.is_some() ==> old(self).state.line.clusters.start
                < final(self).state.line.clusters.start,
            final(self).layout == old(self).layout,
            final(self).prev_state == old(self).prev_state,
            final(self).done == old(self).done,
            r.is_some() == (old(self).state.at_mandatory_break(&old(self).layout) && line_items(
                &old(self).layout,
                old(self).state.explicit_line(),
            ).len() > 0),
            r.is_none() ==> {
                &&& final(self).scanning(max_advance)
                &&& final(self).lines.lines@ == old(self).lines.lines@
                &&& final(self).lines.line_items@ == old(self).lines.line_items@
                &&& final(self).state == old(self).state.marked(&old(self).layout)
            },
            r matches Some(data) ==> {
                &&& final(self).wf()
                &&& final(self).progress() == old(self).progress().commit(
                    &old(self).layout,
                    old(self).state.explicit_line(),
                    BreakerState {
                        prev_boundary: None,
                        line: rolled(clamped(&old(self).layout, old(self).state.explicit_line())),
                        ..old(self).state
                    },
                    max_advance,
                    alignment,
                    BreakReason::Explicit,
                )
                &&& final(self).lines.lines@.len() == old(self).lines.lines@.len() + 1
                &&& final(self).lines.lines@.drop_last() == old(self).lines.lines@
                &&& final(self).lines.line_items@.len() > old(self).lines.line_items@.len()
                &&& final(self).lines.line_items@.take(old(self).lines.line_items@.len() as int)
                    == old(self).lines.line_items@
                &&& data.0 == final(self).lines.lines@.last().metrics.advance
                &&& data.1 == final(self).lines.lines@.last().spec_size()
            },
    {
        let run_idx = self.state.run_idx;
        let cluster_idx = self.state.cluster_idx;
        proof {
            lemma_runs_ordered(
                self.layout.runs@,
                self.layout.clusters@.len() as int,
                run_idx as int,
                run_idx as int,
            );
            lemma_runs_ordered(
                self.layout.runs@,
                self.layout.clusters@.len() as int,
                self.state.line.runs.start as int,
                run_idx as int,
            );
        }
        assert(self.layout.runs@.len() == self.layout.runs.len());
        let cluster = self.layout.clusters[cluster_idx];
        match cluster.info.boundary {
            Boundary::Mandatory => {
                if !self.state.line.skip_mandatory_break {
                    let mut line = self.state.line;
                    line.runs.end = run_idx + 1;
                    line.clusters.end = cluster_idx;
                    // A mandatory break directly after this one is passed over.
                    line.skip_mandatory_break = true;
                    proof {
                        assert(line == self.state.explicit_line());
                        assert(clamped(&self.layout, line) == line);
                        if self.state.line.is_started(&self.layout, run_idx, cluster_idx) {
                            let last = self.state.line.runs.end - 1;
                            lemma_runs_ordered(
                                self.layout.runs@,
                                self.layout.clusters@.len() as int,
                                last,
                                run_idx as int,
                            );
                            assert(is_kept(&self.layout, clip(&self.layout, line, last)));
                            lemma_commits(&self.layout, line, last, line.runs.end as int);
                        }
                    }
                    let r = self.commit(
                        line,
                        run_idx,
                        cluster_idx,
                        max_advance,
                        alignment,
                        BreakReason::Explicit,
                        Ghost(0),
                    );
                    if r.is_some() {
                        return r;
                    }
                    self.state.prev_boundary = None;
                    self.state.line = line;
                }
            },
            Boundary::Line => {
                if !cluster.is_ligature_continuation {
                    self.state.prev_boundary = Some(
                        PrevBoundaryState { run_idx, cluster_idx, state: self.state.line },
                    );
                }
            },
            _ => {},
        }
        // A mandatory break is passed over only directly after another one.
        self.state.line.skip_mandatory_break = false;
        None
    }

    /// Takes the group at the cursor onto the line, or commits a line
    /// because the group does not fit. Returns the advance and size of the
    /// line where one was committed.
    #[verifier::rlimit(40)]
    fn take_group(&mut self, max_advance: u64, alignment: Alignment) -> (r: Option<(u64, u64)>)
        requires
            old(self).scanning(max_advance),
            old(self).state.run_idx < old(self).layout.runs@.len(),
            old(self).state.cluster_idx < old(self).state.run_end(&old(self).layout),
        ensures
            r.is_some() ==> old(self).state.line.clusters.start
                < final(self).state.line.clusters.start,
            final(self).layout == old(self).layout,
            final(self).prev_state == old(self).prev_state,
            final(self).done == old(self).done,
            r.is_some() == (old(self).state.next_x(&old(self).layout) > max_advance && line_items(
                &old(self).layout,
                old(self).state.overflow_line(&old(self).layout),
            ).len() > 0),
            r.is_none() ==> {
                &&& final(self).scanning(max_advance)
                &&& final(self).lines.lines@ == old(self).lines.lines@
                &&& final(self).lines.line_items@ == old(self).lines.line_items@
                &&& final(self).state == old(self).state.joined(&old(self).layout)
                &&& old(self).state.cluster_idx < final(self).state.cluster_idx <= old(
                    self,
                ).state.run_end(&old(self).layout)
            },
            r matches Some(data) ==> {
                &&& final(self).wf()
                &&& final(self).progress() == old(self).progress().commit(
                    &old(self).layout,
                    old(self).state.overflow_line(&old(self).layout),
                    old(self).state.after_overflow(&old(self).layout),
                    max_advance,
                    alignment,
                    old(self).state.overflow_reason(&old(self).layout),
                )
                &&& final(self).lines.lines@.len() == old(self).lines.lines@.len() + 1
                &&& final(self).lines.lines@.drop_last() == old(self).lines.lines@
                &&& final(self).lines.line_items@.len() > old(self).lines.line_items@.len()
                &&& final(self).lines.line_items@.take(old(self).lines.line_items@.len() as int)
                    == old(self).lines.line_items@
                &&& data.0 == final(self).lines.lines@.last().metrics.advance
                &&& data.1 == final(self).lines.lines@.last().spec_size()
            },
    {
        let ghost marked = self.state;
        let run_idx = self.state.run_idx;
        let cluster_idx = self.state.cluster_idx;
        proof {
            lemma_runs_ordered(
                self.layout.runs@,
                self.layout.clusters@.len() as int,
                run_idx as int,
                run_idx as int,
            );
            lemma_runs_ordered(
                self.layout.runs@,
                self.layout.clusters@.len() as int,
                self.state.line.runs.start as int,
                run_idx as int,
            );
        }
        assert(self.layout.runs@.len() == self.layout.runs.len());
        let is_space = self.layout.clusters[cluster_idx].info.whitespace.is_space_or_nbsp();

        // Take the clusters that go with this one in a ligature.
        let (advance, next_idx) = self.measure_group();
        let next_x = self.state.line.x.saturating_add(advance);
        let mut taken = self.state.line;
        taken.runs.end = run_idx + 1;
        taken.clusters.end = next_idx;
        taken.x = next_x;
        proof {
            assert(taken == marked.taken(&self.layout));
            assert(clamped(&self.layout, taken) == taken);
            lemma_group_end(&self.layout, cluster_idx as int, marked.run_end(&self.layout));
            lemma_advance_sum_nonnegative(self.layout.clusters@, cluster_idx as int, next_idx as int);
            lemma_advance_sum_nonnegative(
                self.layout.clusters@,
                marked.line.clusters.start as int,
                cluster_idx as int,
            );
            lemma_advance_sum_split(
                self.layout.clusters@,
                marked.line.clusters.start as int,
                cluster_idx as int,
                next_idx as int,
            );
            if next_idx == cluster_idx + 1 {
                assert(advance_sum(self.layout.clusters@, cluster_idx as int, cluster_idx as int) == 0);
            }
        }

        if next_x > max_advance {
            let mut line = taken;
            let mut break_reason = BreakReason::Emergency;
            let mut resume_run = run_idx;
            let mut resume_cluster = next_idx;
            if is_space {
                // Hang overflowing whitespace
                break_reason = BreakReason::Regular;
            } else {
                match self.state.prev_boundary {
                    Some(prev) => {
                        if prev.state.x != 0 {
                            line = prev.state;
                            break_reason = BreakReason::Regular;
                            resume_run = prev.run_idx;
                            resume_cluster = prev.cluster_idx;
                        }
                        // Else breaking there would leave an empty line, and the
                        // next line would overflow as this one: the group is taken.
                    },
                    None => {
                        if self.state.line.x != 0 {
                            line = self.state.line;
                            resume_cluster = cluster_idx;
                        }
                        // Else the group will never fit: it is taken.
                    },
                }
            }
            proof {
                assert(line == marked.overflow_line(&self.layout));
                assert(break_reason == marked.overflow_reason(&self.layout));
                assert(clamped(&self.layout, line) == line);
                let last = line.runs.end - 1;
                assert(is_kept(&self.layout, clip(&self.layout, line, last)));
                lemma_commits(&self.layout, line, last, line.runs.end as int);
                assert(marked.after_overflow(&self.layout) == (BreakerState {
                    run_idx: resume_run,
                    cluster_idx: resume_cluster,
                    line: rolled(clamped(&self.layout, line)),
                    prev_boundary: None,
                    ..marked
                }));
            }
            return self.commit(
                line,
                resume_run,
                resume_cluster,
                max_advance,
                alignment,
                break_reason,
                Ghost(cluster_idx as int),
            );
        }
        self.state.line = taken;
        self.state.cluster_idx = next_idx;
        if is_space {
            self.state.line.num_spaces += 1;
        }
        None
    }

    /// One step of the breaker at the cluster at the cursor. Returns the
    /// advance and size of the line where one was committed.
    fn step(&mut self, max_advance: u64, alignment: Alignment) -> (r: Option<(u64, u64)>)
        requires
            old(self).scanning(max_advance),
            old(self).state.run_idx < old(self).layout.runs@.len(),
            old(self).state.cluster_idx < old(self).state.run_end(&old(self).layout),
        ensures
            r.is_some() ==> old(self).state.line.clusters.start
                < final(self).state.line.clusters.start,
            final(self).layout == old(self).layout,
            final(self).prev_state == old(self).prev_state,
            final(self).done == old(self).done,
            (final(self).progress(), r.is_some()) == old(self).progress().step(
                &old(self).layout,
                max_advance,
                alignment,
            ),
            r.is_none() ==> {
                &&& final(self).scanning(max_advance)
                &&& final(self).lines.lines@ == old(self).lines.lines@
                &&& final(self).lines.line_items@ == old(self).lines.line_items@
                &&& final(self).state.run_idx == old(self).state.run_idx
                &&& old(self).state.cluster_idx < final(self).state.cluster_idx <= old(
                    self,
                ).state.run_end(&old(self).layout)
            },
            r matches Some(data) ==> {
                &&& final(self).wf()
                &&& final(self).lines.lines@.len() == old(self).lines.lines@.len() + 1
                &&& final(self).lines.lines@.drop_last() == old(self).lines.lines@
                &&& final(self).lines.line_items@.len() > old(self).lines.line_items@.len()
                &&& final(self).lines.line_items@.take(old(self).lines.line_items@.len() as int)
                    == old(self).lines.line_items@
                &&& data.0 == final(self).lines.lines@.last().metrics.advance
                &&& data.1 == final(self).lines.lines@.last().spec_size()
            },
    {
        let r = self.mark_boundary(max_advance, alignment);
        if r.is_some() {
            return r;
        }
        self.take_group(max_advance, alignment)
    }

    /// Takes steps from the cursor on, up to the first line that is
    /// committed or to the end of the text. Returns the advance and size of
    /// the line where one was committed.
    #[verifier::rlimit(40)]
    fn scan(&mut self, max_advance: u64, alignment: Alignment) -> (r: Option<(u64, u64)>)
        requires
            old(self).scanning(max_advance),
        ensures
            r.is_some() ==> old(self).state.line.clusters.start
                < final(self).state.line.clusters.start,
            final(self).layout == old(self).layout,
            final(self).prev_state == old(self).prev_state,
            final(self).done == old(self).done,
            (final(self).progress(), r.is_some()) == old(self).progress().scan(
                &old(self).layout,
                max_advance,
                alignment,
            ),
            r.is_none() ==> {
                &&& final(self).scanning(max_advance)
                &&& final(self).lines.lines@ == old(self).lines.lines@
                &&& final(self).lines.line_items@ == old(self).lines.line_items@
                &&& final(self).state.run_idx == final(self).layout.runs@.len()
            },
            r matches Some(data) ==> {
                &&& final(self).wf()
                &&& final(self).lines.lines@.len() == old(self).lines.lines@.len() + 1
                &&& final(self).lines.lines@.drop_last() == old(self).lines.lines@
                &&& final(self).lines.line_items@.len() > old(self).lines.line_items@.len()
                &&& final(self).lines.line_items@.take(old(self).lines.line_items@.len() as int)
                    == old(self).lines.line_items@
                &&& data.0 == final(self).lines.lines@.last().metrics.advance
                &&& data.1 == final(self).lines.lines@.last().spec_size()
            },
    {
        let ghost entry = self.progress();
        // Iterate over remaining runs in the layout
        let run_count = self.layout.runs.len();
        while self.state.run_idx < run_count
            invariant
                run_count == self.layout.runs@.len(),
                self.scanning(max_advance),
                self.state.line.clusters.start == old(self).state.line.clusters.start,
                self.layout == old(self).layout,
                self.done == old(self).done,
                self.prev_state == old(self).prev_state,
                self.lines.lines@ == old(self).lines.lines@,
                self.lines.line_items@ == old(self).lines.line_items@,
                self.progress().scan(&self.layout, max_advance, alignment) == entry.scan(
                    &self.layout,
                    max_advance,
                    alignment,
                ),
                entry == old(self).progress(),
            decreases run_count - self.state.run_idx,
        {
            let run_idx = self.state.run_idx;
            let cluster_end = self.layout.runs[run_idx].cluster_range.end;

            // Iterate over remaining clusters in the run
            while self.state.cluster_idx < cluster_end
                invariant
                    run_count == self.layout.runs@.len(),
                    self.state.run_idx == run_idx,
                    run_idx < run_count,
                    cluster_end == self.state.run_end(&self.layout),
                    self.scanning(max_advance),
                    self.state.line.clusters.start == old(self).state.line.clusters.start,
                    self.layout == old(self).layout,
                    self.done == old(self).done,
                    self.prev_state == old(self).prev_state,
                    self.lines.lines@ == old(self).lines.lines@,
                    self.lines.line_items@ == old(self).lines.line_items@,
                    self.progress().scan(&self.layout, max_advance, alignment) == entry.scan(
                        &self.layout,
                        max_advance,
                        alignment,
                    ),
                    entry == old(self).progress(),
                decreases cluster_end - self.state.cluster_idx,
            {
                let r = self.step(max_advance, alignment);
                if r.is_some() {
                    return r;
                }
            }
            proof {
                if run_idx + 1 < run_count {
                    lemma_runs_ordered(
                        self.layout.runs@,
                        self.layout.clusters@.len() as int,
                        run_idx as int,
                        run_idx + 1,
                    );
                }
            }
            self.state.run_idx += 1;
        }
        None
    }

    /// Commits the line that is left at the end of the text, if it has an
    /// item. Returns its advance and size where it was committed.
    #[verifier::rlimit(40)]
    fn close(&mut self, max_advance: u64, alignment: Alignment) -> (r: Option<(u64, u64)>)
        requires
            old(self).scanning(max_advance),
            old(self).state.run_idx == old(self).layout.runs@.len(),
        ensures
            final(self).layout == old(self).layout,
            final(self).prev_state == old(self).prev_state,
            final(self).done == old(self).done,
            final(self).wf(),
            r.is_some() == (line_items(&old(self).layout, old(self).progress().closing_line()).len()
                > 0),
            r.is_none() ==> {
                &&& final(self).lines.lines@ == old(self).lines.lines@
                &&& final(self).lines.line_items@ == old(self).lines.line_items@
                &&& final(self).state == (BreakerState {
                    line: clamped(&old(self).layout, old(self).progress().closing_line()),
                    ..old(self).state
                })
            },
            r matches Some(data) ==> {
                &&& final(self).progress() == old(self).progress().commit(
                    &old(self).layout,
                    old(self).progress().closing_line(),
                    BreakerState {
                        line: rolled(
                            clamped(&old(self).layout, old(self).progress().closing_line()),
                        ),
                        prev_boundary: None,
                        ..old(self).state
                    },
                    max_advance,
                    alignment,
                    BreakReason::NoBreak,
                )
                &&& final(self).lines.lines@.len() == old(self).lines.lines@.len() + 1
                &&& final(self).lines.lines@.drop_last() == old(self).lines.lines@
                &&& final(self).lines.line_items@.len() > old(self).lines.line_items@.len()
                &&& final(self).lines.line_items@.take(old(self).lines.line_items@.len() as int)
                    == old(self).lines.line_items@
                &&& data.0 == final(self).lines.lines@.last().metrics.advance
                &&& data.1 == final(self).lines.lines@.last().spec_size()
            },
    {
        if self.state.line.runs.end == 0 {
            self.state.line.runs.end = 1;
        }
        let line = self.state.line;
        let ghost snapshot = self.prev_state.unwrap();
        proof {
            assert(line == old(self).progress().closing_line());
            if let Some(prev) = self.state.prev_boundary {
                // A boundary is remembered only behind the start of a line
                // that has taken its cluster.
                lemma_runs_ordered(
                    self.layout.runs@,
                    self.layout.clusters@.len() as int,
                    prev.run_idx as int,
                    prev.run_idx as int,
                );
                assert(line.is_started(&self.layout, self.state.run_idx, self.state.cluster_idx));
            }
            lemma_runs_ordered(
                self.layout.runs@,
                self.layout.clusters@.len() as int,
                line.runs.start as int,
                line.runs.end - 1,
            );
            if line.is_started(&self.layout, self.state.run_idx, self.state.cluster_idx) {
                let last = line.runs.end - 1;
                assert(clamped(&self.layout, line) == line);
                assert(is_kept(&self.layout, clip(&self.layout, line, last)));
                lemma_commits(&self.layout, line, last, line.runs.end as int);
            }
        }
        let r = self.commit(
            line,
            self.state.run_idx,
            self.state.cluster_idx,
            max_advance,
            alignment,
            BreakReason::NoBreak,
            Ghost(0),
        );
        if r.is_some() {
            return r;
        }
        if self.state.line.clusters.end > self.layout.clusters.len() {
            self.state.line.clusters.end = self.layout.clusters.len();
        }
        proof {
            assert(self.lines.lines@.take(snapshot.lines as int) =~= self.lines.lines@);
            assert(self.lines.line_items@.take(snapshot.items as int)
                =~= self.lines.line_items@);
        }
        None
    }

    /// Computes the next line in the paragraph. Returns the advance and size
    /// (width and height for horizontal layouts) of the line.
    #[verifier::rlimit(60)]
    pub fn break_next(&mut self, max_advance: u64, alignment: Alignment) -> (r: Option<(u64, u64)>)
        requires
            old(self).wf(),
        ensures
            final(self).wf(),
            broke_next(*old(self), *final(self), max_advance, alignment, r),
    {
        // Maintain iterator state
        if self.done {
            return None;
        }
        self.prev_state = Some(self.state);
        assert(self.scanning(max_advance));
        let r = self.scan(max_advance, alignment);
        if r.is_some() {
            return r;
        }
        let r = self.close(max_advance, alignment);
        if r.is_some() {
            let ghost closed = *self;
            self.done = true;
            assert(self.wf()) by {
                assert(closed.wf());
                assert(self.lines == closed.lines);
                assert(self.state == closed.state);
                assert(self.prev_state == closed.prev_state);
                assert(self.layout == closed.layout);
            }
        }
        r
    }

    /// Reverts the last computed line, returning to the previous state.
    pub fn revert(&mut self) -> (r: bool)
        requires
            old(self).wf(),
        ensures
            final(self).wf(),
            reverted(*old(self), *final(self), r),
    {
        match self.prev_state {
            Some(state) => {
                proof {
                    lemma_lines_ok_take(
                        &self.layout,
                        self.lines.lines@,
                        self.lines.line_items@,
                        state.lines as int,
                        state.items as int,
                    );
                }
                self.prev_state = None;
                self.state = state;
                self.lines.lines.truncate(self.state.lines);
                self.lines.line_items.truncate(self.state.items);
                self.done = false;
                proof {
                    assert(self.lines.lines@ =~= old(self).lines.lines@.take(state.lines as int));
                    assert(self.lines.line_items@ =~= old(self).lines.line_items@.take(
                        state.items as int,
                    ));
                }
                true
            },
            None => false,
        }
    }

    /// A breaker for `layout`, at the start of its text. The justification
    /// of an earlier pass is taken off the clusters, and the lines of that
    /// pass are dropped.
    pub fn new(layout: LayoutData) -> (r: BreakLines)
        requires
            layout.wf(),
        ensures
            r.wf(),
            !r.done,
            r.prev_state.is_none(),
            r.state == BreakerState::initial(),
            r.lines.lines@.len() == 0,
            r.lines.line_items@.len() == 0,
            r.layout.clusters@ == justified_upto(
                layout.clusters@,
                layout.line_items@,
                layout.lines@,
                layout.lines@.len() as int,
                false,
            ),
            r.layout.lines@.len() == 0,
            r.layout.line_items@.len() == 0,
            r.layout == (LayoutData {
                clusters: r.layout.clusters,
                lines: r.layout.lines,
                line_items: r.layout.line_items,
                width: 0,
                height: 0,
                ..layout
            }),
    {
        let mut layout = layout;
        let ghost given = layout;
        unjustify(&mut layout);
        layout.width = 0;
        layout.height = 0;
        let mut lines = LineLayout::default();
        lines.swap(&mut layout);
        lines.lines.clear();
        lines.line_items.clear();
        proof {
            lemma_justified_keeps(
                given.clusters@,
                given.line_items@,
                given.lines@,
                given.lines@.len() as int,
                false,
            );
            assert forall|i: int| 0 <= i < layout.clusters@.len() implies (
            #[trigger] layout.clusters@[i]).style_index < layout.styles@.len() by {
                assert(given.clusters@[i].style_index < given.styles@.len());
            }
        }
        BreakLines { layout, lines, state: BreakerState::default(), prev_state: None, done: false }
    }

    /// Breaks all remaining lines with the specified maximum advance, and
    /// finishes them. This consumes the line breaker.
    ///
    /// The lines are those that `break_next` commits call by call, up to the
    /// first call that commits none.
    #[verifier::rlimit(40)]
    pub fn break_remaining(self, max_advance: u64, alignment: Alignment) -> (r: LayoutData)
        requires
            self.wf(),
        ensures
            r.wf(),
            broke_remaining(self, r, max_advance, alignment),
            r.clusters@ == justified_upto(
                self.layout.clusters@,
                r.line_items@,
                r.lines@,
                r.lines@.len() as int,
                true,
            ),
            r == (LayoutData {
                width: widest(r.lines@, r.lines@.len() as int),
                full_width: fullest(r.lines@, r.lines@.len() as int),
                height: total_height(r.lines@, r.lines@.len() as int),
                clusters: r.clusters,
                lines: r.lines,
                line_items: r.line_items,
                ..self.layout
            }),
    {
        let mut this = self;
        let ghost mut n: nat = 0;
        proof {
            this.lemma_line_start_in_bounds();
            reveal_with_fuel(broken_times, 1);
        }
        loop
            invariant_except_break
                (this.progress(), this.done) == broken_times(
                    self.progress(),
                    self.done,
                    &self.layout,
                    max_advance,
                    alignment,
                    n,
                ),
            invariant
                this.wf(),
                this.layout == self.layout,
                this.state.line.clusters.start <= this.layout.clusters@.len(),
                forall|m: nat|
                    m < n ==> #[trigger] breaks_after(
                        self.progress(),
                        self.done,
                        &self.layout,
                        max_advance,
                        alignment,
                        m,
                    ),
            ensures
                this.lines.lines@ == broken_times(
                    self.progress(),
                    self.done,
                    &self.layout,
                    max_advance,
                    alignment,
                    n,
                ).0.lines,
                this.lines.line_items@ == broken_times(
                    self.progress(),
                    self.done,
                    &self.layout,
                    max_advance,
                    alignment,
                    n,
                ).0.line_items,
                !breaks_after(self.progress(), self.done, &self.layout, max_advance, alignment, n),
            decreases
                    (if this.done {
                        0int
                    } else {
                        1int
                    }),
                    this.layout.clusters@.len() - this.state.line.clusters.start,
        {
            if !this.break_counted(max_advance, alignment, Ghost(self), Ghost(n)) {
                break ;
            }
            proof {
                n = n + 1;
            }
        }
        this.finish()
    }

    /// Breaks the next line of a breaker that `n` calls of `break_next` have
    /// brought here from `origin`, and tells whether a line was committed.
    fn break_counted(
        &mut self,
        max_advance: u64,
        alignment: Alignment,
        Ghost(origin): Ghost<BreakLines>,
        Ghost(n): Ghost<nat>,
    ) -> (r: bool)
        requires
            old(self).wf(),
            old(self).layout == origin.layout,
            (old(self).progress(), old(self).done) == broken_times(
                origin.progress(),
                origin.done,
                &origin.layout,
                max_advance,
                alignment,
                n,
            ),
        ensures
            final(self).wf(),
            final(self).layout == origin.layout,
            final(self).state.line.clusters.start <= final(self).layout.clusters@.len(),
            r == breaks_after(
                origin.progress(),
                origin.done,
                &origin.layout,
                max_advance,
                alignment,
                n,
            ),
            r ==> (final(self).progress(), final(self).done) == broken_times(
                origin.progress(),
                origin.done,
                &origin.layout,
                max_advance,
                alignment,
                n + 1,
            ),
            r ==> !old(self).done && (final(self).done || old(self).state.line.clusters.start
                < final(self).state.line.clusters.start),
            !r ==> final(self).lines.lines@ == old(self).lines.lines@
                && final(self).lines.line_items@ == old(self).lines.line_items@,
    {
        let ghost before = *self;
        let r = self.break_next(max_advance, alignment);
        proof {
            lemma_broke_next_counts(before, *self, origin, max_advance, alignment, r, n);
            self.lemma_line_start_in_bounds();
        }
        r.is_some()
    }
}

impl Default for BreakerState {
    fn default() -> (r: Self)
        ensures
            r == BreakerState::initial(),
    {
        BreakerState {
            items: 0,
            lines: 0,
            run_idx: 0,
            cluster_idx: 0,
            line: LineState {
                x: 0,
                runs: Span { start: 0, end: 0 },
                clusters: Span { start: 0, end: 0 },
                skip_mandatory_break: false,
                num_spaces: 0,
            },
            prev_boundary: None,
        }
    }
}

impl Default for LineLayout {
    fn default() -> (r: Self)
        ensures
            r.lines@.len() == 0,
            r.line_items@.len() == 0,
    {
        LineLayout { lines: Vec::new(), line_items: Vec::new() }
    }
}

} // verus!
