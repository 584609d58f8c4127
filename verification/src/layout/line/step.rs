//! The steps of the greedy line breaker, as functions of its state.
//!
//! The breaker walks the clusters of the layout run by run. At each cluster
//! it takes one step: the group of clusters that begins there joins the line
//! that is being filled, or a line is committed. What `break_next` and
//! `revert` do is said in terms of these steps.

use vstd::prelude::*;
use crate::layout::line::greedy::{
    BreakLines, BreakerState, LineState, PrevBoundaryState,
};
use crate::layout::{
    Alignment, Boundary, BreakReason, ClusterData, LayoutData, LayoutItemKind, LineData,
    LineItemData, LineMetrics,
};
use crate::span::Span;
use crate::units::{clamp, plus};

verus! {

/// `line` with the end of its clusters held within the layout's clusters.
pub open spec fn clamped(layout: &LayoutData, line: LineState) -> LineState {
    LineState {
        clusters: Span {
            start: line.clusters.start,
            end: if line.clusters.end <= layout.clusters@.len() {
                line.clusters.end
            } else {
                layout.clusters@.len() as usize
            },
        },
        ..line
    }
}

/// The clusters of run `r` that lie on `line`: the line's first run begins
/// where the line's clusters begin, its last run ends where they end.
pub open spec fn clip(layout: &LayoutData, line: LineState, r: int) -> Span {
    Span {
        start: if r == line.runs.start {
            line.clusters.start
        } else {
            layout.runs@[r].cluster_range.start
        },
        end: if r + 1 == line.runs.end {
            line.clusters.end
        } else {
            layout.runs@[r].cluster_range.end
        },
    }
}

/// A run gives a line an item where some of its clusters lie on the line;
/// in a layout of no text, also where none does.
pub open spec fn is_kept(layout: &LayoutData, clusters: Span) -> bool {
    clusters.start < clusters.end || (clusters.start == clusters.end && layout.text_len == 0)
}

/// The text from the first to the last of `clusters`.
pub open spec fn text_of(layout: &LayoutData, clusters: Span) -> Span {
    if clusters.start < clusters.end <= layout.clusters@.len() {
        Span {
            start: layout.clusters@[clusters.start as int].text_range.start,
            end: layout.clusters@[clusters.end - 1].text_range.end,
        }
    } else {
        Span { start: 0, end: 0 }
    }
}

/// The item that run `r` gives to `line`.
pub open spec fn line_item(layout: &LayoutData, line: LineState, r: int) -> LineItemData {
    LineItemData {
        kind: LayoutItemKind::TextRun,
        index: r as usize,
        bidi_level: layout.runs@[r].bidi_level,
        is_whitespace: false,
        has_trailing_whitespace: false,
        cluster_range: clip(layout, line, r),
        text_range: text_of(layout, clip(layout, line, r)),
        advance: 0,
    }
}

/// The items that the runs of `line` before run `to` give to it, in the
/// order of the runs.
pub open spec fn line_items_upto(layout: &LayoutData, line: LineState, to: int) -> Seq<
    LineItemData,
>
    decreases to - line.runs.start,
{
    if to <= line.runs.start {
        Seq::empty()
    } else if is_kept(layout, clip(layout, line, to - 1)) {
        line_items_upto(layout, line, to - 1).push(line_item(layout, line, to - 1))
    } else {
        line_items_upto(layout, line, to - 1)
    }
}

/// The items of `line`.
pub open spec fn line_items(layout: &LayoutData, line: LineState) -> Seq<LineItemData> {
    line_items_upto(layout, clamped(layout, line), line.runs.end as int)
}

/// The state in which the line behind `line` begins: its clusters begin
/// where those of `line` end, and it goes on in the last run of `line`.
pub open spec fn rolled(line: LineState) -> LineState {
    LineState {
        x: line.x,
        runs: Span { start: (line.runs.end - 1) as usize, end: line.runs.end },
        clusters: Span { start: line.clusters.end, end: (line.clusters.end + 1) as usize },
        skip_mandatory_break: line.skip_mandatory_break,
        num_spaces: 0,
    }
}

/// The line that is committed from `line` with the items `items`. A
/// regular break does not count the space that it breaks at.
pub open spec fn committed_line(
    items: Span,
    line: LineState,
    max_advance: u64,
    alignment: Alignment,
    break_reason: BreakReason,
) -> LineData {
    LineData {
        run_range: items,
        max_advance,
        alignment,
        break_reason,
        num_spaces: if break_reason == BreakReason::Regular && line.num_spaces > 0 {
            (line.num_spaces - 1) as usize
        } else {
            line.num_spaces
        },
        text_range: Span { start: 0, end: 0 },
        metrics: LineMetrics { advance: line.x, ..LineMetrics::zero() },
    }
}

/// What a breaker has reached: its state, and the lines and line items that
/// it has committed.
pub struct Progress {
    pub state: BreakerState,
    pub lines: Seq<LineData>,
    pub line_items: Seq<LineItemData>,
}

/// Where the clusters end that continue a ligature from cluster `j` on,
/// within a run that ends at `run_end`.
pub open spec fn continuation_end(layout: &LayoutData, j: int, run_end: int) -> int
    decreases run_end - j,
{
    if j < run_end && layout.clusters@[j].is_ligature_continuation {
        continuation_end(layout, j + 1, run_end)
    } else {
        j
    }
}

/// Where the group of clusters ends that begins at cluster `i` and is broken
/// as one: a cluster that starts a ligature takes with it the clusters of its
/// run that continue the ligature.
pub open spec fn group_end(layout: &LayoutData, i: int, run_end: int) -> int {
    if layout.clusters@[i].is_ligature_start {
        continuation_end(layout, i + 1, run_end)
    } else {
        i + 1
    }
}

/// The sum of the advances of the clusters `[from, to)`.
pub open spec fn advance_sum(clusters: Seq<ClusterData>, from: int, to: int) -> int
    decreases to - from,
{
    if to <= from {
        0
    } else {
        advance_sum(clusters, from, to - 1) + clusters[to - 1].advance
    }
}

/// The clusters that continue a ligature end within the run, and each of
/// them continues a ligature.
pub proof fn lemma_continuation_end(layout: &LayoutData, j: int, run_end: int)
    requires
        j <= run_end,
    ensures
        j <= continuation_end(layout, j, run_end) <= run_end,
        forall|k: int|
            j <= k < continuation_end(layout, j, run_end) ==> (
            #[trigger] layout.clusters@[k]).is_ligature_continuation,
    decreases run_end - j,
{
    if j < run_end && layout.clusters@[j].is_ligature_continuation {
        lemma_continuation_end(layout, j + 1, run_end);
    }
}

/// A group holds its first cluster, ends within its run, and every other
/// cluster of it continues a ligature.
pub proof fn lemma_group_end(layout: &LayoutData, i: int, run_end: int)
    requires
        i < run_end,
    ensures
        i < group_end(layout, i, run_end) <= run_end,
        forall|k: int|
            i < k < group_end(layout, i, run_end) ==> (
            #[trigger] layout.clusters@[k]).is_ligature_continuation,
{
    lemma_continuation_end(layout, i + 1, run_end);
}

/// The sum over a range is the sum over its two parts.
pub proof fn lemma_advance_sum_split(clusters: Seq<ClusterData>, from: int, mid: int, to: int)
    requires
        from <= mid <= to,
    ensures
        advance_sum(clusters, from, to) == advance_sum(clusters, from, mid) + advance_sum(
            clusters,
            mid,
            to,
        ),
    decreases to - mid,
{
    if mid < to {
        lemma_advance_sum_split(clusters, from, mid, to - 1);
    }
}

/// No sum of advances is negative.
pub proof fn lemma_advance_sum_nonnegative(clusters: Seq<ClusterData>, from: int, to: int)
    ensures
        advance_sum(clusters, from, to) >= 0,
    decreases to - from,
{
    if to > from {
        lemma_advance_sum_nonnegative(clusters, from, to - 1);
    }
}

/// What is done about a group that does not fit on the line.
pub enum Overflow {
    /// A space hangs over the end of the line, which breaks behind it.
    Hang,
    /// The group is taken although it does not fit: there is no earlier
    /// place to break at, or only the start of the line.
    Force,
    /// The line is broken at the last boundary seen.
    Rewind(PrevBoundaryState),
    /// The line is broken before the group.
    Cut,
}

impl BreakerState {
    /// The end of the run that the cursor is in.
    pub open spec fn run_end(self, layout: &LayoutData) -> int {
        layout.runs@[self.run_idx as int].cluster_range.end as int
    }

    /// The line as a mandatory break at the cursor ends it: before the
    /// cluster at the cursor.
    pub open spec fn explicit_line(self) -> LineState {
        LineState {
            runs: Span { start: self.line.runs.start, end: (self.run_idx + 1) as usize },
            clusters: Span { start: self.line.clusters.start, end: self.cluster_idx },
            skip_mandatory_break: true,
            ..self.line
        }
    }

    /// The cluster at the cursor asks for a break before it that is not
    /// passed over.
    pub open spec fn at_mandatory_break(self, layout: &LayoutData) -> bool {
        layout.clusters@[self.cluster_idx as int].info.boundary == Boundary::Mandatory
            && !self.line.skip_mandatory_break
    }

    /// The state once the boundary of the cluster at the cursor is dealt
    /// with and no line was committed there. A mandatory break for which
    /// there is no line to commit leaves the line ending before the cluster; a
    /// line boundary at a cluster that continues no ligature is remembered.
    pub open spec fn marked(self, layout: &LayoutData) -> BreakerState {
        let cluster = layout.clusters@[self.cluster_idx as int];
        if self.at_mandatory_break(layout) {
            BreakerState {
                prev_boundary: None,
                line: LineState {
                    skip_mandatory_break: false,
                    ..clamped(layout, self.explicit_line())
                },
                ..self
            }
        } else if cluster.info.boundary == Boundary::Line && !cluster.is_ligature_continuation {
            BreakerState {
                prev_boundary: Some(
                    PrevBoundaryState {
                        run_idx: self.run_idx,
                        cluster_idx: self.cluster_idx,
                        state: self.line,
                    },
                ),
                line: LineState { skip_mandatory_break: false, ..self.line },
                ..self
            }
        } else {
            BreakerState { line: LineState { skip_mandatory_break: false, ..self.line }, ..self }
        }
    }

    /// Where the group at the cursor ends.
    pub open spec fn next_idx(self, layout: &LayoutData) -> int {
        group_end(layout, self.cluster_idx as int, self.run_end(layout))
    }

    /// The advance of the line with the group at the cursor.
    pub open spec fn next_x(self, layout: &LayoutData) -> u64 {
        plus(
            self.line.x,
            clamp(advance_sum(layout.clusters@, self.cluster_idx as int, self.next_idx(layout))),
        )
    }

    /// The line with the group at the cursor.
    pub open spec fn taken(self, layout: &LayoutData) -> LineState {
        LineState {
            x: self.next_x(layout),
            runs: Span { start: self.line.runs.start, end: (self.run_idx + 1) as usize },
            clusters: Span {
                start: self.line.clusters.start,
                end: self.next_idx(layout) as usize,
            },
            ..self.line
        }
    }

    /// The state in which the group at the cursor has joined the line and
    /// the cursor stands behind it.
    pub open spec fn joined(self, layout: &LayoutData) -> BreakerState {
        let is_space = layout.clusters@[self.cluster_idx as int].info.whitespace.is_space_or_nbsp();
        BreakerState {
            cluster_idx: self.next_idx(layout) as usize,
            line: LineState {
                num_spaces: if is_space {
                    (self.line.num_spaces + 1) as usize
                } else {
                    self.line.num_spaces
                },
                ..self.taken(layout)
            },
            ..self
        }
    }

    /// What is done where the group at the cursor does not fit.
    pub open spec fn overflow(self, layout: &LayoutData) -> Overflow {
        if layout.clusters@[self.cluster_idx as int].info.whitespace.is_space_or_nbsp() {
            Overflow::Hang
        } else {
            match self.prev_boundary {
                Some(prev) => if prev.state.x == 0 {
                    Overflow::Force
                } else {
                    Overflow::Rewind(prev)
                },
                None => if self.line.x == 0 {
                    Overflow::Force
                } else {
                    Overflow::Cut
                },
            }
        }
    }

    /// The line that is committed where the group at the cursor does not fit.
    pub open spec fn overflow_line(self, layout: &LayoutData) -> LineState {
        match self.overflow(layout) {
            Overflow::Hang => self.taken(layout),
            Overflow::Force => self.taken(layout),
            Overflow::Rewind(prev) => prev.state,
            Overflow::Cut => self.line,
        }
    }

    /// Why the line ends where the group at the cursor does not fit.
    pub open spec fn overflow_reason(self, layout: &LayoutData) -> BreakReason {
        match self.overflow(layout) {
            Overflow::Hang => BreakReason::Regular,
            Overflow::Force => BreakReason::Emergency,
            Overflow::Rewind(_) => BreakReason::Regular,
            Overflow::Cut => BreakReason::Emergency,
        }
    }

    /// The state in which the line behind an overflow begins. The cursor
    /// stands behind the group where the line took it, at the boundary where
    /// the line was broken there, and stays where the line ends before the
    /// group.
    pub open spec fn after_overflow(self, layout: &LayoutData) -> BreakerState {
        let line = rolled(clamped(layout, self.overflow_line(layout)));
        match self.overflow(layout) {
            Overflow::Rewind(prev) => BreakerState {
                run_idx: prev.run_idx,
                cluster_idx: prev.cluster_idx,
                line,
                prev_boundary: None,
                ..self
            },
            Overflow::Cut => BreakerState { line, prev_boundary: None, ..self },
            _ => BreakerState {
                cluster_idx: self.next_idx(layout) as usize,
                line,
                prev_boundary: None,
                ..self
            },
        }
    }

    /// The state in which a breaker begins: at the first cluster, with a
    /// line that holds nothing.
    pub open spec fn initial() -> BreakerState {
        BreakerState {
            items: 0,
            lines: 0,
            run_idx: 0,
            cluster_idx: 0,
            line: LineState {
                x: 0,
                runs: Span { start: 0, end: 0 },
                clusters: Span { start: 0, end: 0 },
                skip_mandatory_break: false,
                num_spaces: 0,
            },
            prev_boundary: None,
        }
    }
}

impl Progress {
    /// The progress once `line` is committed, with the state `next`.
    pub open spec fn commit(
        self,
        layout: &LayoutData,
        line: LineState,
        next: BreakerState,
        max_advance: u64,
        alignment: Alignment,
        break_reason: BreakReason,
    ) -> Progress {
        let line_items = self.line_items + line_items(layout, line);
        let lines = self.lines.push(
            committed_line(
                Span { start: self.line_items.len() as usize, end: line_items.len() as usize },
                line,
                max_advance,
                alignment,
                break_reason,
            ),
        );
        Progress {
            state: BreakerState {
                items: line_items.len() as usize,
                lines: lines.len() as usize,
                line: LineState { x: 0, ..next.line },
                ..next
            },
            lines,
            line_items,
        }
    }

    /// One step of the breaker, at a cursor that stands at a cluster of its
    /// run: the progress behind the step, and whether a line was committed.
    ///
    /// A mandatory break commits the line before the cluster. Else the group
    /// at the cursor joins the line where it fits. Where it does not, the
    /// line is committed as the kind of overflow has it. Where there is no
    /// line to commit, the group joins the line all the same.
    pub open spec fn step(
        self,
        layout: &LayoutData,
        max_advance: u64,
        alignment: Alignment,
    ) -> (Progress, bool) {
        let state = self.state;
        let explicit = state.explicit_line();
        if state.at_mandatory_break(layout) && line_items(layout, explicit).len() > 0 {
            (
                self.commit(
                    layout,
                    explicit,
                    BreakerState {
                        prev_boundary: None,
                        line: rolled(clamped(layout, explicit)),
                        ..state
                    },
                    max_advance,
                    alignment,
                    BreakReason::Explicit,
                ),
                true,
            )
        } else {
            let marked = state.marked(layout);
            if marked.next_x(layout) > max_advance && line_items(
                layout,
                marked.overflow_line(layout),
            ).len() > 0 {
                (
                    self.commit(
                        layout,
                        marked.overflow_line(layout),
                        marked.after_overflow(layout),
                        max_advance,
                        alignment,
                        marked.overflow_reason(layout),
                    ),
                    true,
                )
            } else {
                (Progress { state: marked.joined(layout), ..self }, false)
            }
        }
    }

    /// The steps of the breaker from the cursor on, up to the first line
    /// that is committed or to the end of the text: the progress there, and
    /// whether a line was committed.
    pub open spec fn scan(self, layout: &LayoutData, max_advance: u64, alignment: Alignment) -> (
        Progress,
        bool,
    )
        decreases
            layout.runs@.len() - self.state.run_idx,
            self.state.run_end(layout) - self.state.cluster_idx,
    {
        let state = self.state;
        if state.run_idx >= layout.runs@.len() {
            (self, false)
        } else if state.cluster_idx >= state.run_end(layout) {
            proof {
                assert(layout.runs@.len() == layout.runs.len());
            }
            Progress {
                state: BreakerState { run_idx: (state.run_idx + 1) as usize, ..state },
                ..self
            }.scan(layout, max_advance, alignment)
        } else {
            let (next, committed) = self.step(layout, max_advance, alignment);
            if committed {
                (next, true)
            } else {
                proof {
                    lemma_group_end(layout, state.cluster_idx as int, state.run_end(layout));
                }
                next.scan(layout, max_advance, alignment)
            }
        }
    }

    /// The line that is left when the text ends.
    pub open spec fn closing_line(self) -> LineState {
        if self.state.line.runs.end == 0 {
            LineState { runs: Span { start: self.state.line.runs.start, end: 1 }, ..self.state.line }
        } else {
            self.state.line
        }
    }

    /// The next line: the first that the steps from the cursor on commit,
    /// or, where they reach the end of the text, the line that is left
    /// there, if it has an item.
    pub open spec fn break_next(
        self,
        layout: &LayoutData,
        max_advance: u64,
        alignment: Alignment,
    ) -> Broken {
        let (reached, committed) = self.scan(layout, max_advance, alignment);
        let closing = reached.closing_line();
        if committed {
            Broken { progress: reached, committed: true, done: false }
        } else if line_items(layout, closing).len() > 0 {
            Broken {
                progress: reached.commit(
                    layout,
                    closing,
                    BreakerState {
                        line: rolled(clamped(layout, closing)),
                        prev_boundary: None,
                        ..reached.state
                    },
                    max_advance,
                    alignment,
                    BreakReason::NoBreak,
                ),
                committed: true,
                done: true,
            }
        } else {
            Broken {
                progress: Progress {
                    state: BreakerState { line: clamped(layout, closing), ..reached.state },
                    ..reached
                },
                committed: false,
                done: false,
            }
        }
    }
}

/// The result of breaking the next line.
pub struct Broken {
    pub progress: Progress,
    /// A line was committed.
    pub committed: bool,
    /// The line that was committed ends the text.
    pub done: bool,
}

/// `after` is what `break_next` makes of `before`, with the result `r`.
///
/// A breaker that is done stays as it is. Else the state is kept for
/// `revert`, and the breaker goes on to the next line. Where it commits one,
/// that line and its items stand behind those committed before, and `r`
/// holds its advance and its size; where it commits none, the committed
/// lines are as they were.
pub open spec fn broke_next(
    before: BreakLines,
    after: BreakLines,
    max_advance: u64,
    alignment: Alignment,
    r: Option<(u64, u64)>,
) -> bool {
    &&& after.layout == before.layout
    &&& before.done ==> {
        &&& r.is_none()
        &&& after.done
        &&& after.progress() == before.progress()
        &&& after.prev_state == before.prev_state
    }
    &&& !before.done ==> {
        let broken = before.progress().break_next(&before.layout, max_advance, alignment);
        &&& after.progress() == broken.progress
        &&& after.done == broken.done
        &&& after.prev_state == Some(before.state)
        &&& r.is_some() == broken.committed
    }
    &&& match r {
        Some(data) => {
            &&& after.done || before.state.line.clusters.start < after.state.line.clusters.start
            &&& after.lines.lines@.len() == before.lines.lines@.len() + 1
            &&& after.lines.lines@.drop_last() == before.lines.lines@
            &&& after.lines.line_items@.len() > before.lines.line_items@.len()
            &&& after.lines.line_items@.take(before.lines.line_items@.len() as int)
                == before.lines.line_items@
            &&& data.0 == after.lines.lines@.last().metrics.advance
            &&& data.1 == after.lines.lines@.last().spec_size()
        },
        None => {
            &&& after.lines.lines@ == before.lines.lines@
            &&& after.lines.line_items@ == before.lines.line_items@
        },
    }
}

/// `after` is what `revert` makes of `before`, with the result `r`.
///
/// Where a state was kept, the breaker is back in it, with the lines and
/// line items that were committed then, and is not done.
pub open spec fn reverted(before: BreakLines, after: BreakLines, r: bool) -> bool {
    &&& after.layout == before.layout
    &&& after.prev_state.is_none()
    &&& match before.prev_state {
        Some(snapshot) => {
            &&& r
            &&& !after.done
            &&& after.state == snapshot
            &&& after.lines.lines@ == before.lines.lines@.take(snapshot.lines as int)
            &&& after.lines.line_items@ == before.lines.line_items@.take(snapshot.items as int)
        },
        None => {
            &&& !r
            &&& after.done == before.done
            &&& after.progress() == before.progress()
        },
    }
}

/// The progress of a breaker after `n` calls of `break_next`, and whether it
/// is done. A breaker that is done stays as it is.
#[verifier::opaque]
pub open spec fn broken_times(
    progress: Progress,
    done: bool,
    layout: &LayoutData,
    max_advance: u64,
    alignment: Alignment,
    n: nat,
) -> (Progress, bool)
    decreases n,
{
    if n == 0 {
        (progress, done)
    } else {
        let (reached, ended) = broken_times(
            progress,
            done,
            layout,
            max_advance,
            alignment,
            (n - 1) as nat,
        );
        if ended {
            (reached, ended)
        } else {
            let broken = reached.break_next(layout, max_advance, alignment);
            (broken.progress, broken.done)
        }
    }
}

/// The call of `break_next` after `n` calls commits a line.
#[verifier::opaque]
pub open spec fn breaks_after(
    progress: Progress,
    done: bool,
    layout: &LayoutData,
    max_advance: u64,
    alignment: Alignment,
    n: nat,
) -> bool {
    let (reached, ended) = broken_times(progress, done, layout, max_advance, alignment, n);
    !ended && reached.break_next(layout, max_advance, alignment).committed
}

} // verus!
