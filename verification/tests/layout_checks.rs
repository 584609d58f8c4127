use parley::context::LayoutContext;
use parley::layout::line::greedy::{commit_line, BreakLines, LineLayout, LineState};
use parley::layout::{
    Alignment, Boundary, BreakReason, ClusterData, ClusterInfo, InlineBox, LayoutData,
    LayoutItemKind, LineData, LineItemData, LineMetrics, RunData, RunMetrics, Style, Whitespace,
};
use parley::resolve::{Brush, RangedStyle, ResolvedStyle};
use parley::span::Span;
use parley::units::{ONE, UNBOUNDED};

fn cluster(at: usize) -> ClusterData {
    ClusterData {
        info: ClusterInfo { boundary: Boundary::NoBoundary, whitespace: Whitespace::NotWhitespace },
        is_ligature_start: false,
        is_ligature_continuation: false,
        style_index: 0,
        text_range: Span { start: at, end: at + 1 },
        advance: 10 * ONE,
    }
}

fn run(start: usize, end: usize) -> RunData {
    RunData {
        cluster_range: Span { start, end },
        text_range: Span { start, end },
        bidi_level: 0,
        metrics: RunMetrics { ascent: 8 * ONE, descent: 2 * ONE, leading: 0 },
    }
}

fn layout(runs: &[(usize, usize)], clusters: usize) -> LayoutData {
    let mut layout = LayoutData::new();
    layout.text_len = clusters;
    layout.styles.push(Style {
        brush: Brush { id: 0 },
        underline: None,
        strikethrough: None,
        line_height: ONE,
    });
    layout.runs = runs.iter().map(|(start, end)| run(*start, *end)).collect();
    layout.clusters = (0..clusters).map(cluster).collect();
    layout
}

#[test]
fn a_shaped_layout_is_well_formed() {
    assert!(layout(&[(0, 4)], 4).is_well_formed());
    assert!(layout(&[(0, 2), (2, 2), (2, 4)], 4).is_well_formed());
    assert!(layout(&[(0, 0)], 0).is_well_formed());
}

#[test]
fn a_layout_needs_a_run() {
    assert!(!layout(&[], 0).is_well_formed());
    assert!(!layout(&[], 0).has_covering_runs());
    assert!(!LayoutData::new().is_well_formed());
}

#[test]
fn runs_must_cover_the_clusters() {
    assert!(!layout(&[(1, 4)], 4).has_covering_runs());
    assert!(!layout(&[(0, 3)], 4).has_covering_runs());
    assert!(!layout(&[(0, 5)], 4).has_covering_runs());
    assert!(!layout(&[(0, 2), (3, 4)], 4).has_covering_runs());
    assert!(!layout(&[(0, 3), (2, 4)], 4).has_covering_runs());
    assert!(!layout(&[(0, 4), (4, 2), (2, 4)], 4).has_covering_runs());
    assert!(layout(&[(0, 1), (1, 4)], 4).has_covering_runs());
}

#[test]
fn clusters_must_name_a_style() {
    let mut unstyled = layout(&[(0, 4)], 4);
    unstyled.clusters[2].style_index = 1;
    assert!(!unstyled.has_styled_clusters());
    assert!(!unstyled.is_well_formed());
    unstyled.styles.push(unstyled.styles[0]);
    assert!(unstyled.is_well_formed());
}

#[test]
fn a_layout_of_no_text_has_no_clusters() {
    let mut empty = layout(&[(0, 1)], 1);
    empty.text_len = 0;
    assert!(!empty.is_well_formed());
}

#[test]
fn lines_must_lie_within_the_layout() {
    let item = LineItemData {
        kind: LayoutItemKind::TextRun,
        index: 0,
        bidi_level: 0,
        cluster_range: Span { start: 0, end: 4 },
        text_range: Span { start: 0, end: 4 },
        advance: 0,
        is_whitespace: false,
        has_trailing_whitespace: false,
    };
    let line = LineData {
        run_range: Span { start: 0, end: 1 },
        max_advance: UNBOUNDED,
        alignment: Alignment::Start,
        break_reason: BreakReason::NoBreak,
        num_spaces: 0,
        text_range: Span { start: 0, end: 4 },
        metrics: LineMetrics {
            advance: 0,
            trailing_whitespace: 0,
            ascent: 0,
            descent: 0,
            leading: 0,
            offset: 0,
            baseline: 0,
        },
    };
    let mut broken = layout(&[(0, 4)], 4);
    broken.lines.push(line);
    assert!(!broken.has_lines_in_bounds());
    broken.line_items.push(item);
    assert!(broken.has_lines_in_bounds());
    assert!(broken.is_well_formed());
    broken.line_items[0].cluster_range.end = 5;
    assert!(!broken.has_lines_in_bounds());
    broken.line_items[0].cluster_range = Span { start: 3, end: 2 };
    assert!(!broken.has_lines_in_bounds());
    broken.line_items[0].cluster_range = Span { start: 0, end: 4 };
    broken.line_items[0].index = 1;
    assert!(!broken.is_well_formed());
    broken.line_items[0].index = 0;
    broken.lines[0].run_range = Span { start: 1, end: 0 };
    assert!(!broken.has_lines_in_bounds());
}

#[test]
fn clear_empties_the_layout() {
    let mut full = layout(&[(0, 4)], 4);
    full.inline_boxes.push(InlineBox { id: 1, index: 0, width: ONE, height: ONE });
    full.scale = 3 * ONE;
    full.has_bidi = true;
    full.base_level = 1;
    full.width = 5;
    full.full_width = 6;
    full.height = 7;
    full.clear();
    assert_eq!(full.scale, ONE);
    assert!(!full.has_bidi);
    assert_eq!(full.base_level, 0);
    assert_eq!((full.text_len, full.width, full.full_width, full.height), (0, 0, 0, 0));
    assert!(full.styles.is_empty());
    assert!(full.inline_boxes.is_empty());
    assert!(full.runs.is_empty());
    assert!(full.clusters.is_empty());
    assert!(full.lines.is_empty());
    assert!(full.line_items.is_empty());
}

#[test]
fn context_keeps_its_font_stacks_over_paragraphs() {
    let mut lcx = LayoutContext::new();
    let stack = lcx.rcx.intern(&vec![4, 5]);
    lcx.styles.push(RangedStyle {
        style: ResolvedStyle::default(),
        range: Span { start: 0, end: 1 },
    });
    lcx.inline_boxes.push(InlineBox { id: 1, index: 0, width: ONE, height: ONE });
    lcx.style_indices.push(0);
    lcx.begin();
    assert!(lcx.styles.is_empty());
    assert!(lcx.inline_boxes.is_empty());
    assert!(lcx.style_indices.is_empty());
    assert_eq!(lcx.rcx.stack(stack), Some(&vec![4, 5]));
}

#[test]
fn line_layout_swaps_with_the_layout() {
    let mut a = layout(&[(0, 1)], 1);
    a.lines.push(LineData {
        run_range: Span { start: 0, end: 0 },
        max_advance: 1,
        alignment: Alignment::End,
        break_reason: BreakReason::Regular,
        num_spaces: 2,
        text_range: Span { start: 0, end: 0 },
        metrics: LineMetrics {
            advance: 3,
            trailing_whitespace: 0,
            ascent: 0,
            descent: 0,
            leading: 0,
            offset: 0,
            baseline: 0,
        },
    });
    let mut lines = LineLayout::default();
    lines.swap(&mut a);
    assert!(a.lines.is_empty());
    assert_eq!(lines.lines.len(), 1);
    assert_eq!(lines.lines[0].num_spaces, 2);
    lines.swap(&mut a);
    assert_eq!(a.lines.len(), 1);
    assert!(lines.lines.is_empty());
}

#[test]
fn commit_takes_the_clusters_of_each_run_on_the_line() {
    let shaped = layout(&[(0, 2), (2, 2), (2, 5), (5, 6)], 6);
    let mut lines = LineLayout::default();
    let mut state = LineState {
        x: 40 * ONE,
        runs: Span { start: 0, end: 3 },
        clusters: Span { start: 1, end: 4 },
        skip_mandatory_break: false,
        num_spaces: 3,
    };
    assert!(commit_line(&shaped, &mut lines, &mut state, 90 * ONE, Alignment::End, BreakReason::Regular));
    // The run that holds no cluster gives no item.
    let clusters: Vec<Span> = lines.line_items.iter().map(|item| item.cluster_range).collect();
    assert_eq!(clusters, vec![Span { start: 1, end: 2 }, Span { start: 2, end: 4 }]);
    let indices: Vec<usize> = lines.line_items.iter().map(|item| item.index).collect();
    assert_eq!(indices, vec![0, 2]);
    assert_eq!(lines.line_items[1].text_range, Span { start: 2, end: 4 });
    let line = &lines.lines[0];
    assert_eq!(line.run_range, Span { start: 0, end: 2 });
    assert_eq!(line.num_spaces, 2);
    assert_eq!(line.metrics.advance, 40 * ONE);
    assert_eq!(line.max_advance, 90 * ONE);
    assert_eq!(line.alignment, Alignment::End);
    // The next line begins where this one ends, in its last run.
    assert_eq!(state.clusters, Span { start: 4, end: 5 });
    assert_eq!(state.runs, Span { start: 2, end: 3 });
    assert_eq!(state.num_spaces, 0);
}

#[test]
fn commit_of_a_line_without_clusters_commits_nothing() {
    let shaped = layout(&[(0, 3)], 3);
    let mut lines = LineLayout::default();
    let mut state = LineState {
        x: 0,
        runs: Span { start: 0, end: 1 },
        clusters: Span { start: 3, end: 9 },
        skip_mandatory_break: false,
        num_spaces: 0,
    };
    assert!(!commit_line(&shaped, &mut lines, &mut state, UNBOUNDED, Alignment::Start, BreakReason::NoBreak));
    assert!(lines.lines.is_empty());
    assert!(lines.line_items.is_empty());
    assert_eq!(state.clusters, Span { start: 3, end: 3 });
}

#[test]
fn a_breaker_begins_at_the_first_cluster() {
    let breaker = BreakLines::new(layout(&[(0, 4)], 4));
    assert_eq!(breaker.state.run_idx, 0);
    assert_eq!(breaker.state.cluster_idx, 0);
    assert_eq!(breaker.state.line.x, 0);
    assert!(breaker.prev_state.is_none());
    assert!(!breaker.done);
}
