//! Finalization of the lines that a breaker has committed: whitespace,
//! metrics, visual order, alignment and vertical placement.

use vstd::prelude::*;
use crate::layout::line::consistency::{
    ends_in_hung_space, hangs_from, is_space_group, item_in_bounds, lemma_partition_bounds,
    lemma_partition_ordered, lines_partition, within_width,
};
use crate::layout::line::greedy::BreakLines;
use crate::layout::line::step::{
    advance_sum, breaks_after, broken_times, lemma_advance_sum_nonnegative,
};
use crate::layout::line::justify::{
    adjustment, free_space, justified_line, justified_upto, justify_line, lemma_justified_agrees,
    lemma_spread_keeps, lemma_spread_widens, line_free_space, line_order, same_but_advances,
};
use crate::layout::line::reorder::{
    lemma_reorder_keeps_left_to_right, lemma_reordered_members, lemma_reordered_single,
    reorder_line_items, reordered,
};
use crate::layout::{
    lemma_runs_ordered, runs_cover, Alignment, BreakReason, ClusterData, LayoutData, LineData,
    LineItemData, LineMetrics, RunData, RunMetrics, Style,
};
use crate::span::Span;
use crate::units::{clamp, is_finite, minus, plus, round, rounded, scale_by, scaled};

verus! {

/// Every cluster of the range is whitespace.
pub open spec fn all_whitespace(clusters: Seq<ClusterData>, range: Span) -> bool {
    forall|i: int|
        range.start <= i < range.end ==> (#[trigger] clusters[i]).info.is_whitespace()
}

/// The cluster of the item that comes last in reading: the last for an even
/// bidi level, the first for an odd one.
pub open spec fn terminal_cluster(item: LineItemData) -> int {
    if item.bidi_level % 2 == 1 {
        item.cluster_range.start as int
    } else {
        item.cluster_range.end - 1
    }
}

/// `item` with its whitespace told: it is whitespace if all of its clusters
/// are, and has trailing whitespace if its terminal cluster is.
pub open spec fn classified(clusters: Seq<ClusterData>, item: LineItemData) -> LineItemData {
    LineItemData {
        is_whitespace: all_whitespace(clusters, item.cluster_range),
        has_trailing_whitespace: item.cluster_range.start < item.cluster_range.end
            && clusters[terminal_cluster(item)].info.is_whitespace(),
        ..item
    }
}

/// Tells the whitespace of `item`.
pub fn classify(clusters: &Vec<ClusterData>, item: &mut LineItemData)
    requires
        old(item).cluster_range.end <= clusters@.len(),
    ensures
        *final(item) == classified(clusters@, *old(item)),
{
    let range = item.cluster_range;
    let count = range.len();
    let backwards = item.bidi_level % 2 != 0;
    let mut is_whitespace = true;
    let mut has_trailing_whitespace = false;
    let mut pos: usize = 0;
    let ghost mut other: int = 0;
    while pos < count && is_whitespace
        invariant
            pos <= count,
            count == range.spec_len(),
            range.end <= clusters@.len(),
            range == old(item).cluster_range,
            backwards == (old(item).bidi_level % 2 == 1),
            has_trailing_whitespace == (pos > 0),
            pos > 0 ==> clusters@[terminal_cluster(*old(item))].info.is_whitespace(),
            is_whitespace ==> forall|i: int|
                (if backwards {
                    range.start <= i < range.start + pos
                } else {
                    range.end - pos <= i < range.end
                }) ==> (#[trigger] clusters@[i]).info.is_whitespace(),
            !is_whitespace ==> range.start <= other < range.end
                && !clusters@[other].info.is_whitespace(),
            !is_whitespace && pos == 0 ==> other == terminal_cluster(*old(item)),
        decreases count - pos + (if is_whitespace { 1int } else { 0int }),
    {
        // Odd levels run right to left: their trailing whitespace is at the front.
        let i = if backwards {
            range.start + pos
        } else {
            range.end - 1 - pos
        };
        if clusters[i].info.is_whitespace() {
            has_trailing_whitespace = true;
            pos += 1;
        } else {
            is_whitespace = false;
            proof {
                other = i as int;
            }
        }
    }
    item.is_whitespace = is_whitespace;
    item.has_trailing_whitespace = has_trailing_whitespace;
}

/// The sum of the advances of the clusters of `range`.
pub fn sum_advances(clusters: &Vec<ClusterData>, range: Span) -> (r: u64)
    requires
        range.end <= clusters@.len(),
    ensures
        r == clamp(advance_sum(clusters@, range.start as int, range.end as int)),
{
    let mut sum: u64 = 0;
    if range.is_empty() {
        return sum;
    }
    let mut i = range.start;
    while i < range.end
        invariant
            range.start <= i <= range.end <= clusters@.len(),
            sum == clamp(advance_sum(clusters@, range.start as int, i as int)),
        decreases range.end - i,
    {
        proof {
            lemma_advance_sum_nonnegative(clusters@, range.start as int, i as int);
        }
        sum = sum.saturating_add(clusters[i].advance);
        i += 1;
    }
    sum
}

/// The greatest line height among the styles of the clusters `[from, to)`.
pub open spec fn line_height_upto(
    styles: Seq<Style>,
    clusters: Seq<ClusterData>,
    from: int,
    to: int,
) -> u64
    decreases to - from,
{
    if to <= from {
        0
    } else {
        let rest = line_height_upto(styles, clusters, from, to - 1);
        let own = styles[clusters[to - 1].style_index as int].line_height;
        if own > rest {
            own
        } else {
            rest
        }
    }
}

/// The line height of a run: the greatest that a style of its clusters asks for.
pub open spec fn run_line_height(styles: Seq<Style>, clusters: Seq<ClusterData>, run: RunData) -> u64 {
    line_height_upto(
        styles,
        clusters,
        run.cluster_range.start as int,
        run.cluster_range.end as int,
    )
}

/// The line height of the run `run`.
pub fn compute_line_height(layout: &LayoutData, run: &RunData) -> (r: u64)
    requires
        run.cluster_range.end <= layout.clusters@.len(),
        forall|i: int|
            0 <= i < layout.clusters@.len() ==> (#[trigger] layout.clusters@[i]).style_index
                < layout.styles@.len(),
    ensures
        r == run_line_height(layout.styles@, layout.clusters@, *run),
{
    let mut line_height: u64 = 0;
    if run.cluster_range.is_empty() {
        return line_height;
    }
    let mut i = run.cluster_range.start;
    while i < run.cluster_range.end
        invariant
            run.cluster_range.start <= i <= run.cluster_range.end <= layout.clusters@.len(),
            forall|i: int|
                0 <= i < layout.clusters@.len() ==> (#[trigger] layout.clusters@[i]).style_index
                    < layout.styles@.len(),
            line_height == line_height_upto(
                layout.styles@,
                layout.clusters@,
                run.cluster_range.start as int,
                i as int,
            ),
        decreases run.cluster_range.end - i,
    {
        let own = layout.styles[layout.clusters[i].style_index as usize].line_height;
        if own > line_height {
            line_height = own;
        }
        i += 1;
    }
    line_height
}

/// The greater of two metrics, part by part.
pub open spec fn taller(a: RunMetrics, b: RunMetrics) -> RunMetrics {
    RunMetrics {
        ascent: if a.ascent > b.ascent {
            a.ascent
        } else {
            b.ascent
        },
        descent: if a.descent > b.descent {
            a.descent
        } else {
            b.descent
        },
        leading: if a.leading > b.leading {
            a.leading
        } else {
            b.leading
        },
    }
}

/// The metrics of a run under a line height.
pub open spec fn scaled_metrics(metrics: RunMetrics, line_height: u64) -> RunMetrics {
    RunMetrics {
        ascent: scaled(metrics.ascent, line_height),
        descent: scaled(metrics.descent, line_height),
        leading: scaled(metrics.leading, line_height),
    }
}

/// Some item among the items `[k, hi)` is more than whitespace.
pub open spec fn has_content(items: Seq<LineItemData>, k: int, hi: int) -> bool
    decreases hi - k,
{
    k < hi && (!items[k].is_whitespace || has_content(items, k + 1, hi))
}

/// Some item among the items `[k, hi)` is at a bidi level above 0.
pub open spec fn has_levels(items: Seq<LineItemData>, k: int, hi: int) -> bool
    decreases hi - k,
{
    k < hi && (items[k].bidi_level != 0 || has_levels(items, k + 1, hi))
}

/// Where the text of the items `[k, hi)` begins; `usize::MAX` for no item.
pub open spec fn text_start(items: Seq<LineItemData>, k: int, hi: int) -> usize
    decreases hi - k,
{
    if k >= hi {
        usize::MAX
    } else if items[k].text_range.start < text_start(items, k + 1, hi) {
        items[k].text_range.start
    } else {
        text_start(items, k + 1, hi)
    }
}

/// Where the text of the items `[k, hi)` ends, and at `least` at least.
pub open spec fn text_end(items: Seq<LineItemData>, k: int, hi: int, least: usize) -> usize
    decreases hi - k,
{
    if k >= hi {
        least
    } else if items[k].text_range.end > text_end(items, k + 1, hi, least) {
        items[k].text_range.end
    } else {
        text_end(items, k + 1, hi, least)
    }
}

/// The metrics of the line made of the items `[k, hi)`: part by part the
/// greatest among the runs of its items, each under its line height. The
/// whitespace at the end of the line does not count.
pub open spec fn tallest(
    runs: Seq<RunData>,
    styles: Seq<Style>,
    clusters: Seq<ClusterData>,
    items: Seq<LineItemData>,
    k: int,
    hi: int,
) -> RunMetrics
    decreases hi - k,
{
    if k >= hi {
        RunMetrics { ascent: 0, descent: 0, leading: 0 }
    } else if has_content(items, k, hi) {
        let run = runs[items[k].index as int];
        taller(
            tallest(runs, styles, clusters, items, k + 1, hi),
            scaled_metrics(run.metrics, run_line_height(styles, clusters, run)),
        )
    } else {
        tallest(runs, styles, clusters, items, k + 1, hi)
    }
}

/// Item `k` of a line that ends before item `hi`, with its advance: the sum
/// of the advances of its clusters. The whitespace at the end of the line is
/// not measured.
pub open spec fn measured(
    clusters: Seq<ClusterData>,
    items: Seq<LineItemData>,
    k: int,
    hi: int,
) -> LineItemData {
    if has_content(items, k, hi) {
        LineItemData {
            advance: clamp(
                advance_sum(
                    clusters,
                    items[k].cluster_range.start as int,
                    items[k].cluster_range.end as int,
                ),
            ),
            ..items[k]
        }
    } else {
        items[k]
    }
}

/// What measuring the items of a line gives.
pub struct Measure {
    /// Some item of the line is more than whitespace.
    pub have_metrics: bool,
    /// Some item of the line is at a bidi level above 0.
    pub needs_reorder: bool,
    pub metrics: RunMetrics,
    pub text_range: Span,
}

/// Measures the items `range` of a line: gives each its advance, and finds
/// the metrics and the text of the line. `least_end` is the least end of
/// the text.
pub fn measure_items(
    layout: &LayoutData,
    items: &mut Vec<LineItemData>,
    range: Span,
    least_end: usize,
) -> (r: Measure)
    requires
        runs_cover(layout.runs@, layout.clusters@.len() as int),
        forall|i: int|
            0 <= i < layout.clusters@.len() ==> (#[trigger] layout.clusters@[i]).style_index
                < layout.styles@.len(),
        range.start <= range.end <= old(items)@.len(),
        forall|j: int|
            range.start <= j < range.end ==> item_in_bounds(layout, #[trigger] old(items)@[j]),
    ensures
        final(items)@.len() == old(items)@.len(),
        forall|j: int|
            range.start <= j < range.end ==> #[trigger] final(items)@[j] == measured(
                layout.clusters@,
                old(items)@,
                j,
                range.end as int,
            ),
        forall|j: int|
            0 <= j < old(items)@.len() && !(range.start <= j < range.end) ==> final(items)@[j]
                == old(items)@[j],
        r.have_metrics == has_content(old(items)@, range.start as int, range.end as int),
        r.needs_reorder == has_levels(old(items)@, range.start as int, range.end as int),
        r.metrics == tallest(
            layout.runs@,
            layout.styles@,
            layout.clusters@,
            old(items)@,
            range.start as int,
            range.end as int,
        ),
        r.text_range == (Span {
            start: text_start(old(items)@, range.start as int, range.end as int),
            end: text_end(old(items)@, range.start as int, range.end as int, least_end),
        }),
{
    let mut metrics = RunMetrics { ascent: 0, descent: 0, leading: 0 };
    let mut have_metrics = false;
    let mut needs_reorder = false;
    let mut text_range = Span { start: usize::MAX, end: least_end };

    // Compute metrics for the line, but ignore trailing whitespace.
    let mut k = range.end;
    while k > range.start
        invariant
            runs_cover(layout.runs@, layout.clusters@.len() as int),
            forall|i: int|
                0 <= i < layout.clusters@.len() ==> (#[trigger] layout.clusters@[i]).style_index
                    < layout.styles@.len(),
            range.start <= k <= range.end <= items@.len(),
            items@.len() == old(items)@.len(),
            forall|j: int|
                range.start <= j < range.end ==> item_in_bounds(layout, #[trigger] old(items)@[j]),
            forall|j: int|
                k <= j < range.end ==> #[trigger] items@[j] == measured(
                    layout.clusters@,
                    old(items)@,
                    j,
                    range.end as int,
                ),
            forall|j: int|
                0 <= j < items@.len() && !(k <= j < range.end) ==> items@[j] == old(items)@[j],
            have_metrics == has_content(old(items)@, k as int, range.end as int),
            needs_reorder == has_levels(old(items)@, k as int, range.end as int),
            metrics == tallest(
                layout.runs@,
                layout.styles@,
                layout.clusters@,
                old(items)@,
                k as int,
                range.end as int,
            ),
            text_range == (Span {
                start: text_start(old(items)@, k as int, range.end as int),
                end: text_end(old(items)@, k as int, range.end as int, least_end),
            }),
        decreases k,
    {
        k -= 1;
        let line_run = items[k];
        assert(line_run == old(items)@[k as int]);
        assert(item_in_bounds(layout, line_run));
        if line_run.text_range.end > text_range.end {
            text_range.end = line_run.text_range.end;
        }
        if line_run.text_range.start < text_range.start {
            text_range.start = line_run.text_range.start;
        }
        if line_run.bidi_level != 0 {
            needs_reorder = true;
        }
        if !have_metrics && line_run.is_whitespace {
            continue ;
        }
        items[k].advance = sum_advances(&layout.clusters, line_run.cluster_range);
        let run = &layout.runs[line_run.index];
        proof {
            lemma_runs_ordered(
                layout.runs@,
                layout.clusters@.len() as int,
                line_run.index as int,
                line_run.index as int,
            );
        }
        let line_height = compute_line_height(layout, run);
        let ascent = scale_by(run.metrics.ascent, line_height);
        let descent = scale_by(run.metrics.descent, line_height);
        let leading = scale_by(run.metrics.leading, line_height);
        if ascent > metrics.ascent {
            metrics.ascent = ascent;
        }
        if descent > metrics.descent {
            metrics.descent = descent;
        }
        if leading > metrics.leading {
            metrics.leading = leading;
        }
        have_metrics = true;
    }
    Measure { have_metrics, needs_reorder, metrics, text_range }
}

/// The advance of the last cluster of the last of the items `range`, where
/// that cluster is a space; else 0.
pub open spec fn trailing_whitespace(
    clusters: Seq<ClusterData>,
    items: Seq<LineItemData>,
    range: Span,
) -> u64 {
    if range.start < range.end <= items.len() {
        let last = items[range.end - 1].cluster_range;
        if last.start < last.end <= clusters.len() && clusters[last.end
            - 1].info.whitespace.is_space_or_nbsp() {
            clusters[last.end - 1].advance
        } else {
            0
        }
    } else {
        0
    }
}

/// The trailing whitespace of the line whose items are `range`.
pub fn compute_trailing_whitespace(
    clusters: &Vec<ClusterData>,
    items: &Vec<LineItemData>,
    range: Span,
) -> (r: u64)
    requires
        range.end <= items@.len(),
        range.start < range.end ==> items@[range.end - 1].cluster_range.end <= clusters@.len(),
    ensures
        r == trailing_whitespace(clusters@, items@, range),
{
    if !range.is_empty() {
        let last_run = &items[range.end - 1];
        if !last_run.cluster_range.is_empty() {
            let cluster = &clusters[last_run.cluster_range.end - 1];
            if cluster.info.whitespace.is_space_or_nbsp() {
                cluster.advance
            } else {
                0
            }
        } else {
            0
        }
    } else {
        0
    }
}

/// The shift that alignment gives the line within its free space: none at
/// the start, all of it at the end, half of it in the middle. Justification
/// shifts nothing.
pub open spec fn aligned_offset(line: LineData) -> u64 {
    match line.alignment {
        Alignment::End => free_space(line),
        Alignment::Middle => free_space(line) / 2,
        _ => 0,
    }
}

/// Metrics in whole units: ascent and descent rounded, the leading
/// rounded so that its halves are whole.
pub open spec fn rounded_metrics(raw: RunMetrics) -> RunMetrics {
    RunMetrics {
        ascent: rounded(raw.ascent),
        descent: rounded(raw.descent),
        leading: plus(rounded(raw.leading / 2), rounded(raw.leading / 2)),
    }
}

/// The height of a line above its baseline.
pub open spec fn above(metrics: RunMetrics) -> u64 {
    rounded(plus(metrics.ascent, metrics.leading / 2))
}

/// The depth of a line below its baseline.
pub open spec fn below(metrics: RunMetrics) -> u64 {
    rounded(plus(metrics.descent, metrics.leading / 2))
}

/// The line with its text range, its trailing whitespace, its offset, its
/// metrics in whole units, and its baseline below `y`.
pub open spec fn placed(
    line: LineData,
    text_range: Span,
    trailing_whitespace: u64,
    raw: RunMetrics,
    y: u64,
) -> LineData {
    let measured = LineData {
        text_range,
        metrics: LineMetrics { trailing_whitespace, ..line.metrics },
        ..line
    };
    let whole = rounded_metrics(raw);
    LineData {
        metrics: LineMetrics {
            advance: line.metrics.advance,
            trailing_whitespace,
            ascent: whole.ascent,
            descent: whole.descent,
            leading: whole.leading,
            offset: aligned_offset(measured),
            baseline: plus(y, above(whole)),
        },
        ..measured
    }
}

/// Where the line below a placed line begins.
pub open spec fn bottom(line: LineData) -> u64 {
    plus(
        line.metrics.baseline,
        below(
            RunMetrics {
                ascent: line.metrics.ascent,
                descent: line.metrics.descent,
                leading: line.metrics.leading,
            },
        ),
    )
}

/// Places `line`; see `placed`.
pub fn place_line(
    line: &mut LineData,
    text_range: Span,
    trailing_whitespace: u64,
    raw: RunMetrics,
    y: u64,
) -> (next_y: u64)
    ensures
        *final(line) == placed(*old(line), text_range, trailing_whitespace, raw, y),
        next_y == bottom(*final(line)),
{
    line.text_range = text_range;
    line.metrics.trailing_whitespace = trailing_whitespace;

    // Alignment only applies where the line leaves space free.
    let free = line_free_space(line);
    line.metrics.offset = match line.alignment {
        Alignment::End => free,
        Alignment::Middle => free / 2,
        _ => 0,
    };

    // Round block/vertical axis metrics
    line.metrics.ascent = round(raw.ascent);
    line.metrics.descent = round(raw.descent);
    let half = round(raw.leading / 2);
    line.metrics.leading = half.saturating_add(half);

    let above = round(line.metrics.ascent.saturating_add(line.metrics.leading / 2));
    let below = round(line.metrics.descent.saturating_add(line.metrics.leading / 2));
    line.metrics.baseline = y.saturating_add(above);
    line.metrics.baseline.saturating_add(below)
}

/// The items `range` of a line, measured and in visual order.
pub open spec fn visual_items(
    clusters: Seq<ClusterData>,
    items: Seq<LineItemData>,
    range: Span,
) -> Seq<LineItemData> {
    reordered(
        Seq::new(
            (range.end - range.start) as nat,
            |j: int| measured(clusters, items, range.start + j, range.end as int),
        ),
    )
}

/// The lines, line items and clusters of a layout while its lines are
/// finished one by one, and where the next line begins.
pub struct Finishing {
    pub lines: Seq<LineData>,
    pub line_items: Seq<LineItemData>,
    pub clusters: Seq<ClusterData>,
    pub y: u64,
}

impl Finishing {
    /// The metrics of line `k` before they are rounded: those of its items,
    /// or, for a line of whitespace, those of the run of its first item.
    pub open spec fn raw_metrics(self, runs: Seq<RunData>, styles: Seq<Style>, k: int) -> RunMetrics {
        let range = self.lines[k].run_range;
        if has_content(self.line_items, range.start as int, range.end as int) {
            tallest(
                runs,
                styles,
                self.clusters,
                self.line_items,
                range.start as int,
                range.end as int,
            )
        } else if range.start < range.end {
            runs[visual_items(self.clusters, self.line_items, range)[0].index as int].metrics
        } else {
            RunMetrics { ascent: 0, descent: 0, leading: 0 }
        }
    }

    /// Line `k` finished: its items are measured and stand in visual
    /// order, the line is placed below the lines before it, and
    /// justification has widened its spaces.
    pub open spec fn finish_line(self, runs: Seq<RunData>, styles: Seq<Style>, k: int) -> Finishing {
        let line = self.lines[k];
        let range = line.run_range;
        let line_items = self.line_items.take(range.start as int) + visual_items(
            self.clusters,
            self.line_items,
            range,
        ) + self.line_items.skip(range.end as int);
        let done = placed(
            line,
            Span {
                start: text_start(self.line_items, range.start as int, range.end as int),
                end: text_end(
                    self.line_items,
                    range.start as int,
                    range.end as int,
                    line.text_range.end,
                ),
            },
            trailing_whitespace(self.clusters, line_items, range),
            self.raw_metrics(runs, styles, k),
            self.y,
        );
        Finishing {
            lines: self.lines.update(k, done),
            line_items,
            clusters: justified_line(self.clusters, line_items, done, true),
            y: bottom(done),
        }
    }

    /// The first `k` lines finished, from the first on.
    pub open spec fn finish_upto(self, runs: Seq<RunData>, styles: Seq<Style>, k: int) -> Finishing
        decreases k,
    {
        if k <= 0 {
            self
        } else {
            self.finish_upto(runs, styles, k - 1).finish_line(runs, styles, k - 1)
        }
    }
}

impl BreakLines {
    /// The lines, line items and clusters as they stand, with the next line
    /// beginning at `y`.
    pub open spec fn finishing(&self, y: u64) -> Finishing {
        Finishing {
            lines: self.lines.lines@,
            line_items: self.lines.line_items@,
            clusters: self.layout.clusters@,
            y,
        }
    }

    /// What finishing a line needs: the runs cover the clusters, every
    /// cluster names a style, and lines and line items lie within the layout.
    pub open spec fn finishing_ok(&self) -> bool {
        &&& runs_cover(self.layout.runs@, self.layout.clusters@.len() as int)
        &&& forall|i: int|
            0 <= i < self.layout.clusters@.len() ==> (
            #[trigger] self.layout.clusters@[i]).style_index < self.layout.styles@.len()
        &&& forall|j: int|
            0 <= j < self.lines.line_items@.len() ==> item_in_bounds(
                &self.layout,
                #[trigger] self.lines.line_items@[j],
            )
        &&& forall|j: int|
            0 <= j < self.lines.lines@.len() ==> (#[trigger] self.lines.lines@[j]).run_range.start
                <= self.lines.lines@[j].run_range.end <= self.lines.line_items@.len()
    }

    /// Finishes line `k`, which begins at `y`. Returns where the next line begins.
    #[verifier::rlimit(40)]
    fn finish_line(&mut self, k: usize, y: u64) -> (next_y: u64)
        requires
            old(self).finishing_ok(),
            k < old(self).lines.lines@.len(),
        ensures
            final(self).finishing_ok(),
            final(self).finishing(next_y) == old(self).finishing(y).finish_line(
                old(self).layout.runs@,
                old(self).layout.styles@,
                k as int,
            ),
            final(self).layout == (LayoutData {
                clusters: final(self).layout.clusters,
                ..old(self).layout
            }),
            same_but_advances(final(self).layout.clusters@, old(self).layout.clusters@),
            forall|i: int|
                0 <= i < old(self).layout.clusters@.len() ==> (
                #[trigger] final(self).layout.clusters@[i]).advance >= old(
                    self,
                ).layout.clusters@[i].advance,
            final(self).lines.lines@[k as int].metrics.trailing_whitespace == trailing_whitespace(
                old(self).layout.clusters@,
                final(self).lines.line_items@,
                old(self).lines.lines@[k as int].run_range,
            ),
            final(self).lines.lines@.len() == old(self).lines.lines@.len(),
            final(self).lines.line_items@.len() == old(self).lines.line_items@.len(),
            forall|j: int|
                0 <= j < old(self).lines.lines@.len() && j != k ==> final(self).lines.lines@[j]
                    == old(self).lines.lines@[j],
            final(self).lines.lines@[k as int].run_range == old(self).lines.lines@[k as int].run_range,
            final(self).lines.lines@[k as int].max_advance == old(
                self,
            ).lines.lines@[k as int].max_advance,
            final(self).lines.lines@[k as int].break_reason == old(
                self,
            ).lines.lines@[k as int].break_reason,
            final(self).lines.lines@[k as int].metrics.advance == old(
                self,
            ).lines.lines@[k as int].metrics.advance,
            forall|p: int|
                0 <= p < old(self).lines.line_items@.len() && !(old(
                    self,
                ).lines.lines@[k as int].run_range.start <= p < old(
                    self,
                ).lines.lines@[k as int].run_range.end) ==> final(self).lines.line_items@[p]
                    == old(self).lines.line_items@[p],
            is_left_to_right(old(self).lines.line_items@, old(self).lines.lines@[k as int].run_range)
                ==> in_place(
                final(self).lines.line_items@,
                old(self).lines.line_items@,
                old(self).lines.lines@[k as int].run_range,
            ),
    {
        let ghost before = self.finishing(y);
        let mut line = self.lines.lines[k];
        let range = line.run_range;
        let measure = arrange_items(
            &self.layout,
            &mut self.lines.line_items,
            range,
            line.text_range.end,
        );

        // Compute size of line's trailing whitespace
        assert(range.start < range.end ==> item_in_bounds(
            &self.layout,
            self.lines.line_items@[range.end - 1],
        ));
        let trailing_whitespace = compute_trailing_whitespace(
            &self.layout.clusters,
            &self.lines.line_items,
            range,
        );

        let mut metrics = measure.metrics;
        if !measure.have_metrics {
            // Line consisting entirely of whitespace?
            if !range.is_empty() {
                let line_run = &self.lines.line_items[range.start];
                assert(item_in_bounds(&self.layout, *line_run));
                metrics = self.layout.runs[line_run.index].metrics;
            }
        }
        let next_y = place_line(&mut line, measure.text_range, trailing_whitespace, metrics, y);
        self.lines.lines[k] = line;

        // Apply justification to the line's spaces
        proof {
            lemma_spread_keeps(
                self.layout.clusters@,
                line_order(self.lines.line_items@, range.start as int, range.end as int),
                line.num_spaces as nat,
                adjustment(line),
                true,
            );
            lemma_spread_widens(
                self.layout.clusters@,
                line_order(self.lines.line_items@, range.start as int, range.end as int),
                line.num_spaces as nat,
                adjustment(line),
            );
            assert forall|j: int| range.start <= j < range.end implies (
            #[trigger] self.lines.line_items@[j]).cluster_range.end
                <= self.layout.clusters@.len() by {
                assert(item_in_bounds(&self.layout, self.lines.line_items@[j]));
            }
        }
        justify_line(&mut self.layout.clusters, &self.lines.line_items, &line, true);
        proof {
            assert(self.lines.lines@ =~= before.lines.update(k as int, line));
            assert forall|i: int| 0 <= i < self.layout.clusters@.len() implies (
            #[trigger] self.layout.clusters@[i]).style_index < self.layout.styles@.len() by {
                assert(before.clusters[i].style_index < self.layout.styles@.len());
            }
        }
        next_y
    }
}

/// Measures the items `range` of a line and puts them in visual order.
/// `least_end` is the least end of the line's text.
pub fn arrange_items(
    layout: &LayoutData,
    items: &mut Vec<LineItemData>,
    range: Span,
    least_end: usize,
) -> (r: Measure)
    requires
        runs_cover(layout.runs@, layout.clusters@.len() as int),
        forall|i: int|
            0 <= i < layout.clusters@.len() ==> (#[trigger] layout.clusters@[i]).style_index
                < layout.styles@.len(),
        range.start <= range.end <= old(items)@.len(),
        forall|j: int| 0 <= j < old(items)@.len() ==> item_in_bounds(layout, #[trigger] old(items)@[j]),
    ensures
        final(items)@ == old(items)@.take(range.start as int) + visual_items(
            layout.clusters@,
            old(items)@,
            range,
        ) + old(items)@.skip(range.end as int),
        final(items)@.len() == old(items)@.len(),
        forall|j: int| 0 <= j < final(items)@.len() ==> item_in_bounds(layout, #[trigger] final(items)@[j]),
        forall|p: int|
            0 <= p < old(items)@.len() && !(range.start <= p < range.end) ==> final(items)@[p]
                == old(items)@[p],
        range.start < range.end ==> final(items)@[range.start as int] == visual_items(
            layout.clusters@,
            old(items)@,
            range,
        )[0],
        is_left_to_right(old(items)@, range) ==> in_place(final(items)@, old(items)@, range),
        r.have_metrics == has_content(old(items)@, range.start as int, range.end as int),
        r.metrics == tallest(
            layout.runs@,
            layout.styles@,
            layout.clusters@,
            old(items)@,
            range.start as int,
            range.end as int,
        ),
        r.text_range == (Span {
            start: text_start(old(items)@, range.start as int, range.end as int),
            end: text_end(old(items)@, range.start as int, range.end as int, least_end),
        }),
{
    let measure = measure_items(layout, items, range, least_end);
    let ghost logical = items@.subrange(range.start as int, range.end as int);
    let ghost measured_items = items@;
    proof {
        assert(logical =~= Seq::new(
            (range.end - range.start) as nat,
            |j: int| measured(layout.clusters@, old(items)@, range.start + j, range.end as int),
        ));
        assert forall|j: int| 0 <= j < logical.len() implies item_in_bounds(
            layout,
            #[trigger] logical[j],
        ) by {
            assert(item_in_bounds(layout, old(items)@[range.start + j]));
        }
    }

    // Reorder the items within the line (if required). Reordering is required if
    // the line contains a mix of bidi levels.
    if measure.needs_reorder && range.len() > 1 {
        reorder_line_items(items, range);
    } else {
        proof {
            if range.spec_len() <= 1 {
                lemma_reordered_single(logical);
            } else {
                lemma_no_levels(old(items)@, range.start as int, range.end as int);
                assert forall|j: int| 0 <= j < logical.len() implies (
                #[trigger] logical[j]).bidi_level == 0 by {
                    assert(old(items)@[range.start + j].bidi_level == 0);
                }
                lemma_reorder_keeps_left_to_right(logical);
            }
        }
    }
    proof {
        let visual = visual_items(layout.clusters@, old(items)@, range);
        if is_left_to_right(old(items)@, range) {
            assert forall|j: int| 0 <= j < logical.len() implies (
            #[trigger] logical[j]).bidi_level == 0 by {
                assert(old(items)@[range.start + j].bidi_level == 0);
            }
            lemma_reorder_keeps_left_to_right(logical);
            assert forall|p: int| range.start <= p < range.end implies same_part(
                #[trigger] items@[p],
                old(items)@[p],
            ) by {
                assert(items@.subrange(range.start as int, range.end as int)[p - range.start]
                    == items@[p]);
                assert(logical[p - range.start] == measured(
                    layout.clusters@,
                    old(items)@,
                    p,
                    range.end as int,
                ));
            }
        }
        lemma_reordered_members(logical, |item: LineItemData| item_in_bounds(layout, item));
        assert(items@.subrange(range.start as int, range.end as int) == visual);
        assert(items@ =~= old(items)@.take(range.start as int) + visual + old(items)@.skip(
            range.end as int,
        ));
        assert forall|j: int| 0 <= j < items@.len() implies item_in_bounds(
            layout,
            #[trigger] items@[j],
        ) by {
            if range.start <= j < range.end {
                assert(items@[j] == visual[j - range.start]);
            } else {
                assert(items@[j] == measured_items[j]);
            }
        }
    }
    measure
}

/// Where no item is at a level above 0, every item is at level 0.
proof fn lemma_no_levels(items: Seq<LineItemData>, k: int, hi: int)
    requires
        !has_levels(items, k, hi),
        0 <= k,
    ensures
        forall|j: int| k <= j < hi ==> (#[trigger] items[j]).bidi_level == 0,
    decreases hi - k,
{
    if k < hi {
        lemma_no_levels(items, k + 1, hi);
    }
}

/// The greatest advance among the first `k` lines, trailing whitespace not
/// counted.
pub open spec fn widest(lines: Seq<LineData>, k: int) -> u64
    decreases k,
{
    if k <= 0 {
        0
    } else {
        let own = minus(lines[k - 1].metrics.advance, lines[k - 1].metrics.trailing_whitespace);
        if own > widest(lines, k - 1) {
            own
        } else {
            widest(lines, k - 1)
        }
    }
}

/// The greatest advance among the first `k` lines.
pub open spec fn fullest(lines: Seq<LineData>, k: int) -> u64
    decreases k,
{
    if k <= 0 {
        0
    } else if lines[k - 1].metrics.advance > fullest(lines, k - 1) {
        lines[k - 1].metrics.advance
    } else {
        fullest(lines, k - 1)
    }
}

/// The sum of the heights of the first `k` lines.
pub open spec fn total_height(lines: Seq<LineData>, k: int) -> u64
    decreases k,
{
    if k <= 0 {
        0
    } else {
        plus(total_height(lines, k - 1), lines[k - 1].spec_size())
    }
}

/// The lines of a layout finished: the whitespace of every item is told,
/// then the lines are finished from the first on, the first at the top.
pub open spec fn finished(
    layout: &LayoutData,
    lines: Seq<LineData>,
    items: Seq<LineItemData>,
) -> Finishing {
    Finishing {
        lines,
        line_items: Seq::new(items.len(), |j: int| classified(layout.clusters@, items[j])),
        clusters: layout.clusters@,
        y: 0,
    }.finish_upto(layout.runs@, layout.styles@, lines.len() as int)
}

/// Every item of the range is at bidi level 0.
pub open spec fn is_left_to_right(items: Seq<LineItemData>, range: Span) -> bool {
    forall|p: int| range.start <= p < range.end ==> (#[trigger] items[p]).bidi_level == 0
}

/// The two items are the same part of the same run.
pub open spec fn same_part(a: LineItemData, b: LineItemData) -> bool {
    &&& a.kind == b.kind
    &&& a.index == b.index
    &&& a.bidi_level == b.bidi_level
    &&& a.cluster_range == b.cluster_range
    &&& a.text_range == b.text_range
}

/// The items of the range stand where they stood in `before`.
pub open spec fn in_place(items: Seq<LineItemData>, before: Seq<LineItemData>, range: Span) -> bool {
    forall|p: int| range.start <= p < range.end ==> same_part(#[trigger] items[p], before[p])
}

/// The item ends in a ligature that a space begins: a space, and behind it
/// at least one cluster that continues a ligature.
pub open spec fn ends_in_space_ligature(clusters: Seq<ClusterData>, last: LineItemData) -> bool {
    exists|from: int|
        last.cluster_range.start <= from < last.cluster_range.end - 1 && #[trigger] is_space_group(
            clusters,
            from,
            last.cluster_range.end as int,
        )
}

/// A line that has a limit and was not broken in an emergency is within
/// its limit, its trailing whitespace not counted. This is said of a line
/// whose last item in visual order is its last item in logical order,
/// `committed`, and does not end in a ligature that a space begins.
pub open spec fn width_bound_holds(
    clusters: Seq<ClusterData>,
    committed: LineItemData,
    last: LineItemData,
    line: LineData,
) -> bool {
    (is_finite(line.max_advance) && line.break_reason != BreakReason::Emergency
        && last.cluster_range == committed.cluster_range && !ends_in_space_ligature(
        clusters,
        committed,
    )) ==> line.metrics.advance <= line.max_advance + line.metrics.trailing_whitespace
}

/// `r` is what `break_remaining` makes of `before`: the layout with the
/// lines finished that `break_next` commits call by call, up to the first
/// call that commits none.
pub open spec fn broke_remaining(
    before: BreakLines,
    r: LayoutData,
    max_advance: u64,
    alignment: Alignment,
) -> bool {
    exists|n: nat|
        {
            let reached = (#[trigger] broken_times(
                before.progress(),
                before.done,
                &before.layout,
                max_advance,
                alignment,
                n,
            )).0;
            &&& !breaks_after(
                before.progress(),
                before.done,
                &before.layout,
                max_advance,
                alignment,
                n,
            )
            &&& forall|m: nat|
                m < n ==> #[trigger] breaks_after(
                    before.progress(),
                    before.done,
                    &before.layout,
                    max_advance,
                    alignment,
                    m,
                )
            &&& r.lines@ == finished(&before.layout, reached.lines, reached.line_items).lines
            &&& r.line_items@ == finished(
                &before.layout,
                reached.lines,
                reached.line_items,
            ).line_items
            &&& r.clusters@ == finished(
                &before.layout,
                reached.lines,
                reached.line_items,
            ).clusters
            &&& r.lines@.len() == reached.lines.len()
            &&& forall|k: int|
                0 <= k < r.lines@.len() ==> width_bound_holds(
                    before.layout.clusters@,
                    reached.line_items[(#[trigger] r.lines@[k]).run_range.end - 1],
                    r.line_items@[r.lines@[k].run_range.end - 1],
                    r.lines@[k],
                )
        }
}

impl BreakLines {
    /// Sums up the lines in the layout: its width is the greatest advance of
    /// a line without its trailing whitespace, its full width the greatest
    /// advance, its height the sum of the lines' heights.
    fn summarize(&mut self)
        ensures
            final(self).lines == old(self).lines,
            final(self).layout == (LayoutData {
                width: widest(old(self).lines.lines@, old(self).lines.lines@.len() as int),
                full_width: fullest(old(self).lines.lines@, old(self).lines.lines@.len() as int),
                height: total_height(old(self).lines.lines@, old(self).lines.lines@.len() as int),
                ..old(self).layout
            }),
    {
        let mut width: u64 = 0;
        let mut full_width: u64 = 0;
        let mut height: u64 = 0;
        let mut k: usize = 0;
        while k < self.lines.lines.len()
            invariant
                k <= self.lines.lines@.len(),
                width == widest(self.lines.lines@, k as int),
                full_width == fullest(self.lines.lines@, k as int),
                height == total_height(self.lines.lines@, k as int),
            decreases self.lines.lines@.len() - k,
        {
            let line = &self.lines.lines[k];
            let own = line.metrics.advance.saturating_sub(line.metrics.trailing_whitespace);
            if own > width {
                width = own;
            }
            if line.metrics.advance > full_width {
                full_width = line.metrics.advance;
            }
            height = height.saturating_add(line.size());
            k += 1;
        }
        self.layout.width = width;
        self.layout.full_width = full_width;
        self.layout.height = height;
    }

    /// Gives the breaker up: the layout comes back with the lines as they
    /// stand, and with its width, full width and height summed up from them.
    pub fn release(self) -> (r: LayoutData)
        ensures
            r == (LayoutData {
                width: widest(self.lines.lines@, self.lines.lines@.len() as int),
                full_width: fullest(self.lines.lines@, self.lines.lines@.len() as int),
                height: total_height(self.lines.lines@, self.lines.lines@.len() as int),
                lines: self.lines.lines,
                line_items: self.lines.line_items,
                ..self.layout
            }),
            self.wf() ==> r.wf(),
    {
        let mut this = self;
        proof {
            if self.wf() {
                let lines = self.lines.lines@;
                let items = self.lines.line_items@;
                assert forall|k: int| 0 <= k < lines.len() implies (
                #[trigger] lines[k]).run_range.start <= lines[k].run_range.end <= items.len() by {
                    lemma_partition_bounds(lines, items.len() as int, k);
                }
                assert forall|k: int| 0 <= k < items.len() implies (
                #[trigger] items[k]).cluster_range.start <= items[k].cluster_range.end
                    <= self.layout.clusters@.len() && items[k].index < self.layout.runs@.len() by {
                    assert(item_in_bounds(&self.layout, items[k]));
                }
            }
        }
        this.summarize();
        this.lines.swap(&mut this.layout);
        this.layout
    }

    /// Tells the whitespace of every line item.
    fn classify_items(&mut self)
        requires
            forall|j: int|
                0 <= j < old(self).lines.line_items@.len() ==> (
                #[trigger] old(self).lines.line_items@[j]).cluster_range.end <= old(
                    self,
                ).layout.clusters@.len(),
        ensures
            final(self).layout == old(self).layout,
            final(self).lines.lines == old(self).lines.lines,
            final(self).lines.line_items@ == Seq::new(
                old(self).lines.line_items@.len(),
                |j: int| classified(old(self).layout.clusters@, old(self).lines.line_items@[j]),
            ),
    {
        let mut i: usize = 0;
        while i < self.lines.line_items.len()
            invariant
                i <= self.lines.line_items@.len(),
                self.layout == old(self).layout,
                self.lines.lines == old(self).lines.lines,
                self.lines.line_items@.len() == old(self).lines.line_items@.len(),
                forall|j: int|
                    0 <= j < i ==> #[trigger] self.lines.line_items@[j] == classified(
                        old(self).layout.clusters@,
                        old(self).lines.line_items@[j],
                    ),
                forall|j: int|
                    i <= j < self.lines.line_items@.len() ==> #[trigger] self.lines.line_items@[j]
                        == old(self).lines.line_items@[j],
                forall|j: int|
                    0 <= j < old(self).lines.line_items@.len() ==> (
                    #[trigger] old(self).lines.line_items@[j]).cluster_range.end <= old(
                        self,
                    ).layout.clusters@.len(),
            decreases self.lines.line_items@.len() - i,
        {
            let mut item = self.lines.line_items[i];
            classify(&self.layout.clusters, &mut item);
            self.lines.line_items[i] = item;
            i += 1;
        }
        assert(self.lines.line_items@ =~= Seq::new(
            old(self).lines.line_items@.len(),
            |j: int| classified(old(self).layout.clusters@, old(self).lines.line_items@[j]),
        ));
    }
}

impl BreakLines {
    /// Finishes the lines from the first on, the first at the top.
    #[verifier::rlimit(40)]
    fn finish_lines(&mut self)
        requires
            old(self).finishing_ok(),
            lines_partition(old(self).lines.lines@, old(self).lines.line_items@.len() as int),
            forall|k: int|
                0 <= k < old(self).lines.lines@.len() ==> within_width(
                    &old(self).layout,
                    old(self).lines.line_items@,
                    #[trigger] old(self).lines.lines@[k],
                ),
        ensures
            final(self).finishing_ok(),
            exists|y: u64|
                final(self).finishing(y) == old(self).finishing(0).finish_upto(
                    old(self).layout.runs@,
                    old(self).layout.styles@,
                    old(self).lines.lines@.len() as int,
                ),
            final(self).layout == (LayoutData {
                clusters: final(self).layout.clusters,
                ..old(self).layout
            }),
            same_but_advances(final(self).layout.clusters@, old(self).layout.clusters@),
            final(self).layout.clusters@ == justified_upto(
                old(self).layout.clusters@,
                final(self).lines.line_items@,
                final(self).lines.lines@,
                final(self).lines.lines@.len() as int,
                true,
            ),
            final(self).lines.lines@.len() == old(self).lines.lines@.len(),
            final(self).lines.line_items@.len() == old(self).lines.line_items@.len(),
            forall|k: int|
                0 <= k < old(self).lines.lines@.len() ==> (
                #[trigger] final(self).lines.lines@[k]).run_range == old(
                    self,
                ).lines.lines@[k].run_range && width_bound_holds(
                    old(self).layout.clusters@,
                    old(self).lines.line_items@[old(self).lines.lines@[k].run_range.end - 1],
                    final(self).lines.line_items@[old(self).lines.lines@[k].run_range.end - 1],
                    final(self).lines.lines@[k],
                ),
            forall|k: int|
                0 <= k < old(self).lines.lines@.len() && is_left_to_right(
                    old(self).lines.line_items@,
                    (#[trigger] old(self).lines.lines@[k]).run_range,
                ) ==> in_place(
                    final(self).lines.line_items@,
                    old(self).lines.line_items@,
                    old(self).lines.lines@[k].run_range,
                ),
    {
        let ghost start = self.finishing(0);
        let ghost runs = self.layout.runs@;
        let ghost styles = self.layout.styles@;
        let ghost given = self.layout;
        let mut y: u64 = 0;
        let mut k: usize = 0;
        while k < self.lines.lines.len()
            invariant
                k <= self.lines.lines@.len(),
                self.finishing_ok(),
                start == old(self).finishing(0),
                given == old(self).layout,
                runs == given.runs@,
                styles == given.styles@,
                lines_partition(start.lines, start.line_items.len() as int),
                forall|j: int|
                    0 <= j < start.lines.len() ==> within_width(
                        &given,
                        start.line_items,
                        #[trigger] start.lines[j],
                    ),
                self.finishing(y) == start.finish_upto(runs, styles, k as int),
                self.layout.clusters@ == justified_upto(
                    start.clusters,
                    self.lines.line_items@,
                    self.lines.lines@,
                    k as int,
                    true,
                ),
                self.layout == (LayoutData { clusters: self.layout.clusters, ..given }),
                same_but_advances(self.layout.clusters@, start.clusters),
                forall|i: int|
                    0 <= i < start.clusters.len() ==> (#[trigger] self.layout.clusters@[i]).advance
                        >= start.clusters[i].advance,
                self.lines.lines@.len() == start.lines.len(),
                self.lines.line_items@.len() == start.line_items.len(),
                forall|j: int|
                    0 <= j < start.lines.len() ==> (#[trigger] self.lines.lines@[j]).run_range
                        == start.lines[j].run_range,
                forall|j: int|
                    k <= j < start.lines.len() ==> #[trigger] self.lines.lines@[j]
                        == start.lines[j],
                forall|p: int|
                    (if k < start.lines.len() {
                        start.lines[k as int].run_range.start as int
                    } else {
                        start.line_items.len() as int
                    }) <= p < start.line_items.len() ==> #[trigger] self.lines.line_items@[p]
                        == start.line_items[p],
                forall|j: int|
                    0 <= j < k ==> width_bound_holds(
                        start.clusters,
                        start.line_items[start.lines[j].run_range.end - 1],
                        self.lines.line_items@[start.lines[j].run_range.end - 1],
                        #[trigger] self.lines.lines@[j],
                    ),
                forall|j: int|
                    0 <= j < k && is_left_to_right(
                        start.line_items,
                        (#[trigger] start.lines[j]).run_range,
                    ) ==> in_place(self.lines.line_items@, start.line_items, start.lines[j].run_range),
            decreases self.lines.lines@.len() - k,
        {
            let ghost before = self.finishing(y);
            let ghost range = start.lines[k as int].run_range;
            proof {
                lemma_partition_bounds(start.lines, start.line_items.len() as int, k as int);
                if k + 1 < start.lines.len() {
                    lemma_partition_ordered(
                        start.lines,
                        start.line_items.len() as int,
                        k as int,
                        k + 1,
                    );
                }
                assert forall|j: int| 0 <= j < k implies start.lines[j].run_range.end
                    <= range.start by {
                    lemma_partition_ordered(start.lines, start.line_items.len() as int, j, k as int);
                }
            }
            y = self.finish_line(k, y);
            proof {
                let now = self.finishing(y);
                assert(now == before.finish_line(runs, styles, k as int));
                assert forall|j: int| 0 <= j < k implies (
                #[trigger] before.lines[j]).run_range.end <= before.line_items.len() by {
                    lemma_partition_bounds(start.lines, start.line_items.len() as int, j);
                }
                lemma_justified_agrees(
                    start.clusters,
                    before.line_items,
                    before.lines,
                    now.line_items,
                    now.lines,
                    k as int,
                    true,
                );
                assert(within_width(&given, start.line_items, start.lines[k as int]));
                assert(before.line_items[range.end - 1] == start.line_items[range.end - 1]);
                assert forall|j: int| 0 <= j < k + 1 implies width_bound_holds(
                    start.clusters,
                    start.line_items[start.lines[j].run_range.end - 1],
                    self.lines.line_items@[start.lines[j].run_range.end - 1],
                    #[trigger] self.lines.lines@[j],
                ) by {
                    if j < k {
                        assert(self.lines.lines@[j] == before.lines[j]);
                        lemma_partition_bounds(start.lines, start.line_items.len() as int, j);
                        assert(self.lines.line_items@[start.lines[j].run_range.end - 1]
                            == before.line_items[start.lines[j].run_range.end - 1]);
                    } else {
                        let committed = start.line_items[range.end - 1];
                        let line = start.lines[k as int];
                        if ends_in_hung_space(&given, committed, line) {
                            let from = choose|from: int| #[trigger]
                                hangs_from(&given, committed, line, from);
                            let end = committed.cluster_range.end as int;
                            if from == end - 1 {
                                assert(advance_sum(start.clusters, from, from) == 0);
                                assert(before.clusters[from].advance
                                    >= start.clusters[from].advance);
                                assert(before.clusters[from] == (ClusterData {
                                    advance: before.clusters[from].advance,
                                    ..start.clusters[from]
                                }));
                            } else {
                                assert(is_space_group(start.clusters, from, end));
                            }
                        }
                    }
                }
                assert forall|j: int|
                    0 <= j < k + 1 && is_left_to_right(
                        start.line_items,
                        (#[trigger] start.lines[j]).run_range,
                    ) implies in_place(
                    self.lines.line_items@,
                    start.line_items,
                    start.lines[j].run_range,
                ) by {
                    lemma_partition_bounds(start.lines, start.line_items.len() as int, j);
                    if j < k {
                        assert(in_place(before.line_items, start.line_items, start.lines[j].run_range));
                        assert forall|p: int|
                            start.lines[j].run_range.start <= p
                                < start.lines[j].run_range.end implies same_part(
                            #[trigger] self.lines.line_items@[p],
                            start.line_items[p],
                        ) by {
                            assert(self.lines.line_items@[p] == before.line_items[p]);
                            assert(same_part(before.line_items[p], start.line_items[p]));
                        }
                    } else {
                        assert forall|p: int| range.start <= p < range.end implies (
                        #[trigger] before.line_items[p]).bidi_level == 0 by {
                            assert(before.line_items[p] == start.line_items[p]);
                        }
                        assert(in_place(self.lines.line_items@, before.line_items, range));
                        assert forall|p: int| range.start <= p < range.end implies same_part(
                            #[trigger] self.lines.line_items@[p],
                            start.line_items[p],
                        ) by {
                            assert(same_part(self.lines.line_items@[p], before.line_items[p]));
                            assert(before.line_items[p] == start.line_items[p]);
                        }
                    }
                }
                assert forall|i: int| 0 <= i < start.clusters.len() implies (
                #[trigger] self.layout.clusters@[i]).advance >= start.clusters[i].advance by {
                    assert(before.clusters[i].advance >= start.clusters[i].advance);
                }
                assert forall|i: int| 0 <= i < start.clusters.len() implies (
                #[trigger] self.layout.clusters@[i]) == (ClusterData {
                    advance: self.layout.clusters@[i].advance,
                    ..start.clusters[i]
                }) by {
                    assert(before.clusters[i] == (ClusterData {
                        advance: before.clusters[i].advance,
                        ..start.clusters[i]
                    }));
                }
            }
            k += 1;
        }
    }

    /// Consumes the line breaker and finalizes all line computations: the
    /// layout comes back with its lines finished and summed up.
    ///
    /// Every line keeps its items, in visual order; the items of a line that
    /// is all at bidi level 0 keep their places. A line with a limit that was
    /// not broken in an emergency is within its limit, its trailing
    /// whitespace not counted; see `width_bound_holds` for the lines of which
    /// this is said. The clusters are those of the breaker with the spaces of
    /// the justified lines widened.
    #[verifier::rlimit(40)]
    pub fn finish(self) -> (r: LayoutData)
        requires
            self.wf(),
        ensures
            r.wf(),
            r.lines@ == finished(&self.layout, self.lines.lines@, self.lines.line_items@).lines,
            r.line_items@ == finished(
                &self.layout,
                self.lines.lines@,
                self.lines.line_items@,
            ).line_items,
            r.clusters@ == finished(
                &self.layout,
                self.lines.lines@,
                self.lines.line_items@,
            ).clusters,
            r == (LayoutData {
                width: widest(r.lines@, r.lines@.len() as int),
                full_width: fullest(r.lines@, r.lines@.len() as int),
                height: total_height(r.lines@, r.lines@.len() as int),
                clusters: r.clusters,
                lines: r.lines,
                line_items: r.line_items,
                ..self.layout
            }),
            r.clusters@ == justified_upto(
                self.layout.clusters@,
                r.line_items@,
                r.lines@,
                r.lines@.len() as int,
                true,
            ),
            r.lines@.len() == self.lines.lines@.len(),
            r.line_items@.len() == self.lines.line_items@.len(),
            forall|k: int|
                0 <= k < r.lines@.len() ==> (#[trigger] r.lines@[k]).run_range
                    == self.lines.lines@[k].run_range && width_bound_holds(
                    self.layout.clusters@,
                    self.lines.line_items@[r.lines@[k].run_range.end - 1],
                    r.line_items@[r.lines@[k].run_range.end - 1],
                    r.lines@[k],
                ),
            forall|k: int|
                0 <= k < r.lines@.len() && is_left_to_right(
                    self.lines.line_items@,
                    (#[trigger] r.lines@[k]).run_range,
                ) ==> in_place(r.line_items@, self.lines.line_items@, r.lines@[k].run_range),
    {
        let mut this = self;
        proof {
            assert forall|j: int| 0 <= j < this.lines.line_items@.len() implies (
            #[trigger] this.lines.line_items@[j]).cluster_range.end
                <= this.layout.clusters@.len() by {
                assert(item_in_bounds(&this.layout, this.lines.line_items@[j]));
            }
        }
        this.classify_items();
        proof {
            let committed = self.lines.line_items@;
            let items = this.lines.line_items@;
            let lines = this.lines.lines@;
            assert forall|j: int| 0 <= j < items.len() implies item_in_bounds(
                &this.layout,
                #[trigger] items[j],
            ) by {
                assert(item_in_bounds(&self.layout, committed[j]));
            }
            assert forall|k: int| 0 <= k < lines.len() implies (#[trigger] lines[k]).run_range.start
                <= lines[k].run_range.end <= items.len() && within_width(
                &this.layout,
                items,
                lines[k],
            ) by {
                lemma_partition_bounds(lines, items.len() as int, k);
                assert(within_width(&self.layout, committed, lines[k]));
                let last = lines[k].run_range.end - 1;
                if ends_in_hung_space(&self.layout, committed[last], lines[k]) {
                    let from = choose|from: int| #[trigger]
                        hangs_from(&self.layout, committed[last], lines[k], from);
                    assert(hangs_from(&this.layout, items[last], lines[k], from));
                }
            }
        }
        this.finish_lines();
        let ghost finished = this;
        let layout = this.release();
        proof {
            let committed = self.lines.line_items@;
            assert forall|k: int| 0 <= k < layout.lines@.len() implies width_bound_holds(
                self.layout.clusters@,
                committed[(#[trigger] layout.lines@[k]).run_range.end - 1],
                layout.line_items@[layout.lines@[k].run_range.end - 1],
                layout.lines@[k],
            ) by {
                lemma_partition_bounds(self.lines.lines@, committed.len() as int, k);
                assert(layout.lines@[k] == finished.lines.lines@[k]);
            }
        }
        layout
    }
}

} // verus!
