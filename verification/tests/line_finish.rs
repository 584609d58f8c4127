use parley::layout::line::finalize::classify;
use parley::layout::line::greedy::BreakLines;
use parley::layout::line::justify::{justify_line, unjustify};
use parley::layout::{
    Alignment, Boundary, BreakReason, ClusterData, ClusterInfo, LayoutData, LayoutItemKind,
    LineItemData, RunData, RunMetrics, Style, Whitespace,
};
use parley::resolve::Brush;
use parley::span::Span;
use parley::units::{HALF, ONE, UNBOUNDED};

/// One cluster per character, ten units wide; a break may follow each space
/// and must precede what follows a newline. Upper case is at bidi level 1.
fn shaped(text: &str) -> LayoutData {
    let chars: Vec<char> = text.chars().collect();
    let level = |c: char| if c.is_ascii_uppercase() { 1u8 } else { 0u8 };
    let mut clusters = Vec::new();
    for (i, c) in chars.iter().enumerate() {
        let boundary = if i > 0 && chars[i - 1] == '\n' {
            Boundary::Mandatory
        } else if i > 0 && chars[i - 1] == ' ' {
            Boundary::Line
        } else {
            Boundary::NoBoundary
        };
        let whitespace = match c {
            ' ' => Whitespace::Space,
            '\n' => Whitespace::Newline,
            '\t' => Whitespace::Tab,
            _ => Whitespace::NotWhitespace,
        };
        clusters.push(ClusterData {
            info: ClusterInfo { boundary, whitespace },
            is_ligature_start: false,
            is_ligature_continuation: false,
            style_index: 0,
            text_range: Span { start: i, end: i + 1 },
            advance: if *c == '\n' { 0 } else { 10 * ONE },
        });
    }
    let metrics = RunMetrics { ascent: 8 * ONE, descent: 2 * ONE, leading: ONE };
    let mut runs = Vec::new();
    let mut start = 0;
    for i in 0..=chars.len() {
        if i == chars.len() || (i > 0 && level(chars[i]) != level(chars[i - 1])) {
            runs.push(RunData {
                cluster_range: Span { start, end: i },
                text_range: Span { start, end: i },
                bidi_level: if chars.is_empty() { 0 } else { level(chars[start]) },
                metrics,
            });
            start = i;
        }
    }
    LayoutData {
        scale: ONE,
        has_bidi: false,
        base_level: 0,
        text_len: chars.len(),
        width: 0,
        full_width: 0,
        height: 0,
        styles: vec![Style {
            brush: Brush { id: 0 },
            underline: None,
            strikethrough: None,
            line_height: ONE,
        }],
        inline_boxes: Vec::new(),
        runs,
        clusters,
        lines: Vec::new(),
        line_items: Vec::new(),
    }
}

fn broken(text: &str, max_advance: u64, alignment: Alignment) -> LayoutData {
    BreakLines::new(shaped(text)).break_remaining(max_advance, alignment)
}

fn advances(layout: &LayoutData) -> Vec<u64> {
    layout.clusters.iter().map(|c| c.advance / ONE).collect()
}

#[test]
fn finish_places_the_lines_below_one_another() {
    let layout = broken("hello world", 65 * ONE, Alignment::Start);
    assert_eq!(layout.lines.len(), 2);
    let first = &layout.lines[0].metrics;
    // Leading 1 is shared out in whole halves: 2.
    assert_eq!((first.ascent, first.descent, first.leading), (8 * ONE, 2 * ONE, 2 * ONE));
    assert_eq!(first.baseline, 9 * ONE);
    assert_eq!(first.offset, 0);
    assert_eq!(first.trailing_whitespace, 10 * ONE);
    let second = &layout.lines[1].metrics;
    assert_eq!(second.baseline, 21 * ONE);
    assert_eq!(second.trailing_whitespace, 0);
    assert_eq!(layout.height, 24 * ONE);
    assert_eq!(layout.width, 50 * ONE);
    assert_eq!(layout.full_width, 60 * ONE);
    assert_eq!(layout.lines[0].text_range, Span { start: 0, end: 6 });
    assert_eq!(layout.lines[1].text_range, Span { start: 6, end: 11 });
    assert_eq!(layout.line_items[0].advance, 60 * ONE);
    assert_eq!(layout.line_items[1].advance, 50 * ONE);
}

#[test]
fn finish_scales_metrics_by_the_line_height() {
    let mut layout = shaped("tall");
    layout.styles[0].line_height = ONE + HALF;
    let layout = BreakLines::new(layout).break_remaining(UNBOUNDED, Alignment::Start);
    let metrics = &layout.lines[0].metrics;
    // 8 * 1.5 = 12, 2 * 1.5 = 3, 1 * 1.5 = 1.5, whose half rounds to 1.
    assert_eq!((metrics.ascent, metrics.descent, metrics.leading), (12 * ONE, 3 * ONE, 2 * ONE));
    assert_eq!(metrics.baseline, 13 * ONE);
    assert_eq!(layout.height, 17 * ONE);
}

#[test]
fn finish_takes_the_greatest_line_height_of_a_run() {
    let mut layout = shaped("ab");
    layout.styles.push(Style {
        brush: Brush { id: 1 },
        underline: None,
        strikethrough: None,
        line_height: 2 * ONE,
    });
    layout.clusters[1].style_index = 1;
    let layout = BreakLines::new(layout).break_remaining(UNBOUNDED, Alignment::Start);
    assert_eq!(layout.lines[0].metrics.ascent, 16 * ONE);
}

#[test]
fn end_alignment_shifts_by_the_free_space() {
    let layout = broken("hello world", 65 * ONE, Alignment::End);
    // 65 - 60 + 10 of trailing whitespace.
    assert_eq!(layout.lines[0].metrics.offset, 15 * ONE);
    assert_eq!(layout.lines[1].metrics.offset, 15 * ONE);
}

#[test]
fn middle_alignment_shifts_by_half_the_free_space() {
    let layout = broken("hello world", 65 * ONE, Alignment::Middle);
    assert_eq!(layout.lines[0].metrics.offset, 15 * ONE / 2);
}

#[test]
fn alignment_needs_a_limit() {
    let layout = broken("hello world", UNBOUNDED, Alignment::End);
    assert_eq!(layout.lines.len(), 1);
    assert_eq!(layout.lines[0].metrics.offset, 0);
}

#[test]
fn alignment_needs_free_space() {
    let mut layout = shaped("m");
    layout.clusters[0].advance = 500 * ONE;
    let layout = BreakLines::new(layout).break_remaining(ONE, Alignment::End);
    assert_eq!(layout.lines[0].break_reason, BreakReason::Emergency);
    assert_eq!(layout.lines[0].metrics.offset, 0);
}

#[test]
fn justified_line_widens_its_space() {
    let layout = broken("ab ab ab", 60 * ONE, Alignment::Justified);
    assert_eq!(layout.lines.len(), 2);
    assert_eq!(layout.lines[0].break_reason, BreakReason::Regular);
    assert_eq!(layout.lines[0].num_spaces, 1);
    // Free space 10, shared out among one space.
    assert_eq!(advances(&layout), vec![10, 10, 20, 10, 10, 10, 10, 10]);
    assert_eq!(layout.lines[0].metrics.offset, 0);
}

#[test]
fn justification_shares_the_free_space_among_the_spaces() {
    let layout = broken("a b c d e f", 65 * ONE, Alignment::Justified);
    // "a b c " takes 60 of 65; its trailing space hangs: free space 15, two
    // spaces are counted.
    assert_eq!(layout.lines[0].num_spaces, 2);
    assert_eq!(layout.lines[0].metrics.trailing_whitespace, 10 * ONE);
    let widened = 10 * ONE + 15 * ONE / 2;
    assert_eq!(layout.clusters[1].advance, widened);
    assert_eq!(layout.clusters[3].advance, widened);
    assert_eq!(layout.clusters[5].advance, 10 * ONE);
    // The last line is not justified.
    assert_eq!(layout.lines[1].break_reason, BreakReason::NoBreak);
    assert_eq!(layout.clusters[7].advance, 10 * ONE);
}

#[test]
fn unjustify_restores_the_shaped_advances() {
    let shaped_advances = advances(&shaped("a b c d e f"));
    let mut layout = broken("a b c d e f", 65 * ONE, Alignment::Justified);
    assert_ne!(advances(&layout), shaped_advances);
    unjustify(&mut layout);
    assert_eq!(advances(&layout), shaped_advances);
}

#[test]
fn a_new_break_pass_starts_from_the_shaped_advances() {
    let layout = broken("a b c d e f", 65 * ONE, Alignment::Justified);
    let again = BreakLines::new(layout);
    assert_eq!(advances(&again.layout), vec![10; 11]);
    assert!(again.lines.lines.is_empty());
    assert!(again.layout.lines.is_empty());
    assert_eq!(again.layout.width, 0);
    assert_eq!(again.layout.height, 0);
    let layout = again.break_remaining(65 * ONE, Alignment::Justified);
    assert_eq!(layout.clusters[1].advance, 10 * ONE + 15 * ONE / 2);
}

#[test]
fn justification_runs_backwards_through_right_to_left_items() {
    let mut clusters = shaped("A B C").clusters;
    for cluster in clusters.iter_mut() {
        cluster.info.boundary = Boundary::NoBoundary;
    }
    let item = LineItemData {
        kind: LayoutItemKind::TextRun,
        index: 0,
        bidi_level: 1,
        cluster_range: Span { start: 0, end: 5 },
        text_range: Span { start: 0, end: 5 },
        advance: 0,
        is_whitespace: false,
        has_trailing_whitespace: false,
    };
    let mut layout = broken("a b c", 45 * ONE, Alignment::Justified);
    let mut line = layout.lines[0];
    line.num_spaces = 1;
    line.metrics.advance = 40 * ONE;
    line.metrics.trailing_whitespace = 0;
    line.run_range = Span { start: 0, end: 1 };
    layout.line_items = vec![item];
    justify_line(&mut clusters, &layout.line_items, &line, true);
    // The one space that is widened is the first that is met from the end.
    assert_eq!(clusters[3].advance, 15 * ONE);
    assert_eq!(clusters[1].advance, 10 * ONE);
    justify_line(&mut clusters, &layout.line_items, &line, false);
    assert_eq!(clusters[3].advance, 10 * ONE);
}

#[test]
fn width_bound_holds_of_regular_lines() {
    let layout = broken("the quick brown fox jumps over the lazy dog", 95 * ONE, Alignment::Start);
    assert!(layout.lines.len() > 3);
    for line in &layout.lines {
        assert_ne!(line.break_reason, BreakReason::Emergency);
        assert!(line.metrics.advance - line.metrics.trailing_whitespace <= line.max_advance);
    }
}

#[test]
fn empty_text_has_a_line_with_height() {
    let mut layout = shaped("");
    layout.text_len = 0;
    let layout = BreakLines::new(layout).break_remaining(UNBOUNDED, Alignment::Start);
    assert_eq!(layout.lines.len(), 1);
    assert_eq!(layout.text_len, 0);
    assert!(layout.clusters.is_empty());
    assert!(layout.height > 0);
    assert_eq!(layout.height, 12 * ONE);
    assert_eq!(layout.lines[0].text_range, Span { start: 0, end: 0 });
}

#[test]
fn line_of_whitespace_takes_the_metrics_of_its_run() {
    let mut layout = shaped("  ");
    layout.styles[0].line_height = 3 * ONE;
    let layout = BreakLines::new(layout).break_remaining(UNBOUNDED, Alignment::Start);
    assert!(layout.line_items[0].is_whitespace);
    assert!(layout.line_items[0].has_trailing_whitespace);
    // Not scaled by the line height, and not measured.
    assert_eq!(layout.lines[0].metrics.ascent, 8 * ONE);
    assert_eq!(layout.line_items[0].advance, 0);
}

#[test]
fn classify_tells_whitespace_at_the_reading_end() {
    let clusters = shaped(" ab").clusters;
    let mut item = LineItemData {
        kind: LayoutItemKind::TextRun,
        index: 0,
        bidi_level: 0,
        cluster_range: Span { start: 0, end: 3 },
        text_range: Span { start: 0, end: 3 },
        advance: 0,
        is_whitespace: false,
        has_trailing_whitespace: false,
    };
    classify(&clusters, &mut item);
    assert!(!item.is_whitespace);
    assert!(!item.has_trailing_whitespace);
    // Read from right to left, the space comes last.
    item.bidi_level = 1;
    classify(&clusters, &mut item);
    assert!(!item.is_whitespace);
    assert!(item.has_trailing_whitespace);
    let mut spaces = LineItemData { cluster_range: Span { start: 0, end: 1 }, ..item };
    spaces.has_trailing_whitespace = false;
    classify(&clusters, &mut spaces);
    assert!(spaces.is_whitespace);
    assert!(spaces.has_trailing_whitespace);
}

#[test]
fn trailing_whitespace_does_not_count_for_the_metrics() {
    let mut layout = shaped("ab ");
    // The space is a run of its own, and a tall one.
    layout.runs = vec![
        RunData {
            cluster_range: Span { start: 0, end: 2 },
            text_range: Span { start: 0, end: 2 },
            bidi_level: 0,
            metrics: RunMetrics { ascent: 8 * ONE, descent: 2 * ONE, leading: 0 },
        },
        RunData {
            cluster_range: Span { start: 2, end: 3 },
            text_range: Span { start: 2, end: 3 },
            bidi_level: 0,
            metrics: RunMetrics { ascent: 30 * ONE, descent: 9 * ONE, leading: 0 },
        },
    ];
    let layout = BreakLines::new(layout).break_remaining(UNBOUNDED, Alignment::Start);
    assert_eq!(layout.line_items.len(), 2);
    assert!(layout.line_items[1].is_whitespace);
    assert_eq!(layout.lines[0].metrics.ascent, 8 * ONE);
    assert_eq!(layout.line_items[1].advance, 0);
    assert_eq!(layout.lines[0].text_range, Span { start: 0, end: 3 });
}

#[test]
fn mixed_directions_are_put_in_visual_order() {
    // Levels 0 1 0: the right-to-left run stays between the others.
    let layout = broken("abCDef", UNBOUNDED, Alignment::Start);
    let order: Vec<usize> = layout.line_items.iter().map(|item| item.index).collect();
    assert_eq!(order, vec![0, 1, 2]);
    assert_eq!(layout.line_items[1].bidi_level, 1);
}

#[test]
fn release_hands_the_lines_back_as_they_stand() {
    let mut breaker = BreakLines::new(shaped("hello world"));
    assert!(breaker.break_next(65 * ONE, Alignment::End).is_some());
    let layout = breaker.release();
    assert_eq!(layout.lines.len(), 1);
    assert_eq!(layout.line_items.len(), 1);
    // Nothing is finished: no trailing whitespace is told, no line is placed.
    assert_eq!(layout.lines[0].metrics.trailing_whitespace, 0);
    assert_eq!(layout.lines[0].metrics.offset, 0);
    assert_eq!(layout.lines[0].metrics.baseline, 0);
    assert_eq!(layout.width, 60 * ONE);
    assert_eq!(layout.full_width, 60 * ONE);
    assert_eq!(layout.height, 0);
    assert!(layout.is_well_formed());
}

#[test]
fn classify_does_not_keep_an_earlier_flag() {
    let clusters = shaped("ab").clusters;
    let mut item = LineItemData {
        kind: LayoutItemKind::TextRun,
        index: 0,
        bidi_level: 0,
        cluster_range: Span { start: 0, end: 2 },
        text_range: Span { start: 0, end: 2 },
        advance: 0,
        is_whitespace: true,
        has_trailing_whitespace: true,
    };
    classify(&clusters, &mut item);
    assert!(!item.is_whitespace);
    assert!(!item.has_trailing_whitespace);
}

#[test]
fn width_bound_counts_the_space_that_hangs() {
    let layout = broken("hello world", 50 * ONE, Alignment::Start);
    let line = &layout.lines[0];
    assert_eq!(line.break_reason, BreakReason::Regular);
    assert_eq!(line.metrics.advance, 60 * ONE);
    assert_eq!(line.metrics.trailing_whitespace, 10 * ONE);
    assert!(line.metrics.advance - line.metrics.trailing_whitespace <= line.max_advance);
}

#[test]
fn width_bound_holds_of_a_line_that_ends_in_a_ligature() {
    let mut layout = shaped("ab fi cd");
    layout.clusters[3].is_ligature_start = true;
    layout.clusters[4].is_ligature_continuation = true;
    layout.clusters[5].info.boundary = Boundary::Line;
    let layout = BreakLines::new(layout).break_remaining(55 * ONE, Alignment::Start);
    // "ab fi" fits; the space behind it hangs.
    let line = &layout.lines[0];
    assert_eq!(line.break_reason, BreakReason::Regular);
    assert!(line.metrics.advance - line.metrics.trailing_whitespace <= line.max_advance);
}
