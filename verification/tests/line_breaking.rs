use parley::layout::line::greedy::BreakLines;
use parley::layout::{
    Alignment, Boundary, BreakReason, ClusterData, ClusterInfo, LayoutData, RunData, RunMetrics,
    Style, Whitespace,
};
use parley::resolve::Brush;
use parley::span::Span;
use parley::units::{ONE, UNBOUNDED};

/// One cluster per character, ten units wide; a break may follow each space
/// and must precede what follows a newline.
fn shaped(text: &str, levels: &[u8]) -> LayoutData {
    let chars: Vec<char> = text.chars().collect();
    let mut clusters = Vec::new();
    for (i, c) in chars.iter().enumerate() {
        let boundary = if i > 0 && chars[i - 1] == '\n' {
            Boundary::Mandatory
        } else if i > 0 && chars[i - 1] == ' ' {
            Boundary::Line
        } else {
            Boundary::NoBoundary
        };
        let whitespace = match c {
            ' ' => Whitespace::Space,
            '\u{a0}' => Whitespace::NoBreakSpace,
            '\n' => Whitespace::Newline,
            '\t' => Whitespace::Tab,
            _ => Whitespace::NotWhitespace,
        };
        clusters.push(ClusterData {
            info: ClusterInfo { boundary, whitespace },
            is_ligature_start: false,
            is_ligature_continuation: false,
            style_index: 0,
            text_range: Span { start: i, end: i + 1 },
            advance: if *c == '\n' { 0 } else { 10 * ONE },
        });
    }
    let metrics = RunMetrics { ascent: 8 * ONE, descent: 2 * ONE, leading: ONE };
    let mut runs = Vec::new();
    let mut start = 0;
    for i in 0..=chars.len() {
        if i == chars.len() || (i > 0 && levels[i] != levels[i - 1]) {
            runs.push(RunData {
                cluster_range: Span { start, end: i },
                text_range: Span { start, end: i },
                bidi_level: if chars.is_empty() { 0 } else { levels[start] },
                metrics,
            });
            start = i;
        }
    }
    LayoutData {
        scale: ONE,
        has_bidi: false,
        base_level: 0,
        text_len: chars.len(),
        width: 0,
        full_width: 0,
        height: 0,
        styles: vec![Style {
            brush: Brush { id: 0 },
            underline: None,
            strikethrough: None,
            line_height: ONE,
        }],
        inline_boxes: Vec::new(),
        runs,
        clusters,
        lines: Vec::new(),
        line_items: Vec::new(),
    }
}

fn ltr(text: &str) -> LayoutData {
    shaped(text, &vec![0; text.chars().count() + 1])
}

fn line_clusters(breaker: &BreakLines, k: usize) -> (usize, usize) {
    let line = &breaker.lines.lines[k];
    let first = &breaker.lines.line_items[line.run_range.start];
    let last = &breaker.lines.line_items[line.run_range.end - 1];
    (first.cluster_range.start, last.cluster_range.end)
}

#[test]
fn unbounded_width_gives_one_line() {
    let mut breaker = BreakLines::new(ltr("hello world"));
    assert_eq!(breaker.break_next(UNBOUNDED, Alignment::Start), Some((110 * ONE, 0)));
    assert_eq!(breaker.break_next(UNBOUNDED, Alignment::Start), None);
    assert_eq!(breaker.lines.lines.len(), 1);
    let line = &breaker.lines.lines[0];
    assert_eq!(line.break_reason, BreakReason::NoBreak);
    assert_eq!(line.num_spaces, 1);
    assert_eq!(line_clusters(&breaker, 0), (0, 11));
    assert!(breaker.done);
}

#[test]
fn soft_wrap_breaks_at_the_last_boundary() {
    let mut breaker = BreakLines::new(ltr("hello world"));
    // "hello " fits, "hello w" does not.
    assert_eq!(breaker.break_next(65 * ONE, Alignment::Start), Some((60 * ONE, 0)));
    assert_eq!(breaker.break_next(65 * ONE, Alignment::Start), Some((50 * ONE, 0)));
    assert_eq!(breaker.break_next(65 * ONE, Alignment::Start), None);
    assert_eq!(breaker.lines.lines.len(), 2);
    assert_eq!(breaker.lines.lines[0].break_reason, BreakReason::Regular);
    assert_eq!(breaker.lines.lines[0].num_spaces, 0);
    assert_eq!(breaker.lines.lines[1].break_reason, BreakReason::NoBreak);
    assert_eq!(line_clusters(&breaker, 0), (0, 6));
    assert_eq!(line_clusters(&breaker, 1), (6, 11));
    let item = &breaker.lines.line_items[1];
    assert_eq!(item.text_range, Span { start: 6, end: 11 });
}

#[test]
fn overflowing_space_hangs() {
    let mut breaker = BreakLines::new(ltr("hello world"));
    // "hello" fits exactly; the space hangs over the end.
    assert_eq!(breaker.break_next(50 * ONE, Alignment::Start), Some((60 * ONE, 0)));
    assert_eq!(breaker.lines.lines[0].break_reason, BreakReason::Regular);
    assert_eq!(breaker.lines.lines[0].num_spaces, 0);
    assert_eq!(line_clusters(&breaker, 0), (0, 6));
    assert_eq!(breaker.break_next(50 * ONE, Alignment::Start), Some((50 * ONE, 0)));
    assert_eq!(line_clusters(&breaker, 1), (6, 11));
}

#[test]
fn mandatory_break_ends_the_line() {
    let mut breaker = BreakLines::new(ltr("a\nb"));
    assert_eq!(breaker.break_next(UNBOUNDED, Alignment::Start), Some((10 * ONE, 0)));
    assert_eq!(breaker.break_next(UNBOUNDED, Alignment::Start), Some((10 * ONE, 0)));
    assert_eq!(breaker.break_next(UNBOUNDED, Alignment::Start), None);
    assert_eq!(breaker.lines.lines.len(), 2);
    assert_eq!(breaker.lines.lines[0].break_reason, BreakReason::Explicit);
    assert_eq!(breaker.lines.lines[1].break_reason, BreakReason::NoBreak);
    assert_eq!(line_clusters(&breaker, 0), (0, 2));
    assert_eq!(line_clusters(&breaker, 1), (2, 3));
}

#[test]
fn mandatory_break_at_the_start_commits_no_empty_line() {
    let mut layout = ltr("ab");
    layout.clusters[0].info.boundary = Boundary::Mandatory;
    let mut breaker = BreakLines::new(layout);
    assert_eq!(breaker.break_next(UNBOUNDED, Alignment::Start), Some((20 * ONE, 0)));
    assert_eq!(breaker.lines.lines.len(), 1);
    assert_eq!(breaker.lines.lines[0].break_reason, BreakReason::NoBreak);
}

#[test]
fn unbreakable_cluster_is_broken_in_an_emergency() {
    let mut layout = ltr("m");
    layout.clusters[0].advance = 500 * ONE;
    let mut breaker = BreakLines::new(layout);
    assert_eq!(breaker.break_next(ONE, Alignment::Start), Some((500 * ONE, 0)));
    assert_eq!(breaker.lines.lines.len(), 1);
    assert_eq!(breaker.lines.lines[0].break_reason, BreakReason::Emergency);
    assert_eq!(line_clusters(&breaker, 0), (0, 1));
    assert_eq!(breaker.break_next(ONE, Alignment::Start), None);
    assert_eq!(breaker.lines.lines.len(), 1);
}

#[test]
fn emergency_breaks_take_each_cluster_once() {
    let mut breaker = BreakLines::new(ltr("abcde"));
    let mut count = 0;
    while breaker.break_next(25 * ONE, Alignment::Start).is_some() {
        count += 1;
        assert!(count < 10);
    }
    assert_eq!(count, 3);
    assert_eq!(line_clusters(&breaker, 0), (0, 2));
    assert_eq!(line_clusters(&breaker, 1), (2, 4));
    assert_eq!(line_clusters(&breaker, 2), (4, 5));
    assert_eq!(breaker.lines.lines[0].break_reason, BreakReason::Emergency);
    assert_eq!(breaker.lines.lines[1].break_reason, BreakReason::Emergency);
    assert_eq!(breaker.lines.lines[2].break_reason, BreakReason::NoBreak);
    assert_eq!(breaker.lines.lines[0].metrics.advance, 20 * ONE);
}

#[test]
fn emergency_breaks_of_wide_clusters_make_progress() {
    let mut breaker = BreakLines::new(ltr("abc"));
    let mut count = 0;
    while breaker.break_next(5 * ONE, Alignment::Start).is_some() {
        count += 1;
        assert!(count < 10);
    }
    assert_eq!(count, 3);
    for k in 0..3 {
        assert_eq!(line_clusters(&breaker, k), (k, k + 1));
        assert_eq!(breaker.lines.lines[k].metrics.advance, 10 * ONE);
    }
    assert_eq!(breaker.lines.lines[0].break_reason, BreakReason::Emergency);
    assert_eq!(breaker.lines.lines[2].break_reason, BreakReason::Emergency);
}

#[test]
fn boundary_at_the_line_start_does_not_cycle() {
    // The boundary before "world" is at the start of the second line, where
    // breaking again would leave an empty line.
    let mut breaker = BreakLines::new(ltr("hi worldwide"));
    assert_eq!(breaker.break_next(35 * ONE, Alignment::Start), Some((30 * ONE, 0)));
    assert_eq!(breaker.break_next(35 * ONE, Alignment::Start), Some((40 * ONE, 0)));
    assert_eq!(breaker.lines.lines[1].break_reason, BreakReason::Emergency);
    assert_eq!(line_clusters(&breaker, 1), (3, 7));
}

#[test]
fn ligature_is_never_split() {
    let mut layout = ltr("affix");
    layout.clusters[1].is_ligature_start = true;
    layout.clusters[2].is_ligature_continuation = true;
    layout.clusters[2].advance = 0;
    layout.clusters[1].advance = 20 * ONE;
    let mut breaker = BreakLines::new(layout);
    // "a" and half of the ligature would fit by advance.
    assert_eq!(breaker.break_next(25 * ONE, Alignment::Start), Some((10 * ONE, 0)));
    assert_eq!(line_clusters(&breaker, 0), (0, 1));
    assert_eq!(breaker.break_next(25 * ONE, Alignment::Start), Some((20 * ONE, 0)));
    assert_eq!(line_clusters(&breaker, 1), (1, 3));
}

#[test]
fn revert_returns_to_the_state_before_the_line() {
    let mut breaker = BreakLines::new(ltr("hello world again"));
    assert!(breaker.break_next(65 * ONE, Alignment::Start).is_some());
    let state = breaker.state;
    let lines = breaker.lines.lines.clone();
    let items = breaker.lines.line_items.clone();
    assert!(breaker.break_next(65 * ONE, Alignment::Start).is_some());
    assert_eq!(breaker.lines.lines.len(), 2);
    assert!(breaker.revert());
    assert_eq!(breaker.state, state);
    assert_eq!(breaker.lines.lines, lines);
    assert_eq!(breaker.lines.line_items, items);
    assert!(!breaker.done);
    assert!(!breaker.revert());
    // A narrower second line: the only boundary is at its start, so the
    // cluster that overflows is taken with it.
    assert_eq!(breaker.break_next(20 * ONE, Alignment::Start), Some((30 * ONE, 0)));
    assert_eq!(line_clusters(&breaker, 1), (6, 9));
    assert_eq!(breaker.lines.lines[1].break_reason, BreakReason::Emergency);
}

#[test]
fn revert_of_the_last_line_reopens_the_breaker() {
    let mut breaker = BreakLines::new(ltr("hello"));
    assert!(breaker.break_next(UNBOUNDED, Alignment::Start).is_some());
    assert!(breaker.done);
    assert!(breaker.revert());
    assert!(!breaker.done);
    assert!(breaker.lines.lines.is_empty());
    assert!(breaker.lines.line_items.is_empty());
    assert!(breaker.break_next(UNBOUNDED, Alignment::Start).is_some());
}

#[test]
fn lines_cover_disjoint_clusters_in_order() {
    let mut breaker = BreakLines::new(ltr("the quick brown fox jumps over the lazy dog"));
    let mut lines = 0;
    let mut items = 0;
    while breaker.break_next(100 * ONE, Alignment::Start).is_some() {
        assert!(breaker.lines.lines.len() > lines);
        assert!(breaker.lines.line_items.len() > items);
        lines = breaker.lines.lines.len();
        items = breaker.lines.line_items.len();
    }
    let mut at = 0;
    for k in 0..lines {
        let (start, end) = line_clusters(&breaker, k);
        assert_eq!(start, at);
        assert!(start < end);
        at = end;
    }
    assert_eq!(at, 43);
}

#[test]
fn a_line_spans_the_runs_that_it_crosses() {
    let levels = [0, 0, 0, 1, 1, 1, 0, 0, 0];
    let mut breaker = BreakLines::new(shaped("abcDEFgh", &levels));
    assert!(breaker.break_next(45 * ONE, Alignment::Start).is_some());
    assert!(breaker.break_next(45 * ONE, Alignment::Start).is_some());
    assert_eq!(breaker.lines.lines[0].run_range, Span { start: 0, end: 2 });
    assert_eq!(breaker.lines.line_items[0].cluster_range, Span { start: 0, end: 3 });
    assert_eq!(breaker.lines.line_items[1].cluster_range, Span { start: 3, end: 4 });
    assert_eq!(breaker.lines.line_items[1].bidi_level, 1);
    assert_eq!(breaker.lines.line_items[1].index, 1);
    assert_eq!(breaker.lines.lines[1].run_range, Span { start: 2, end: 4 });
    assert_eq!(breaker.lines.line_items[2].cluster_range, Span { start: 4, end: 6 });
    assert_eq!(breaker.lines.line_items[3].cluster_range, Span { start: 6, end: 8 });
}

#[test]
fn empty_text_has_one_empty_line() {
    let mut layout = ltr("");
    assert_eq!(layout.runs.len(), 1);
    layout.text_len = 0;
    let mut breaker = BreakLines::new(layout);
    assert_eq!(breaker.break_next(UNBOUNDED, Alignment::Start), Some((0, 0)));
    assert_eq!(breaker.break_next(UNBOUNDED, Alignment::Start), None);
    assert_eq!(breaker.lines.lines.len(), 1);
    assert_eq!(breaker.lines.line_items.len(), 1);
    assert_eq!(breaker.lines.line_items[0].cluster_range, Span { start: 0, end: 0 });
    assert_eq!(breaker.lines.line_items[0].text_range, Span { start: 0, end: 0 });
}

#[test]
fn zero_advance_clusters_are_taken() {
    let mut layout = ltr("abc");
    layout.clusters[1].advance = 0;
    let mut breaker = BreakLines::new(layout);
    assert_eq!(breaker.break_next(20 * ONE, Alignment::Start), Some((20 * ONE, 0)));
    assert_eq!(line_clusters(&breaker, 0), (0, 3));
}

#[test]
fn mandatory_break_is_taken_once() {
    // The cluster behind a newline asks for the break. It is met again at the
    // start of the next line, where it commits no empty line.
    let mut breaker = BreakLines::new(ltr("a\n\nb"));
    let mut count = 0;
    while breaker.break_next(UNBOUNDED, Alignment::Start).is_some() {
        count += 1;
        assert!(count < 10);
    }
    assert_eq!(count, 3);
    assert_eq!(line_clusters(&breaker, 0), (0, 2));
    assert_eq!(line_clusters(&breaker, 1), (2, 3));
    assert_eq!(line_clusters(&breaker, 2), (3, 4));
    assert_eq!(breaker.lines.lines[0].break_reason, BreakReason::Explicit);
    assert_eq!(breaker.lines.lines[1].break_reason, BreakReason::Explicit);
    assert_eq!(breaker.lines.lines[2].break_reason, BreakReason::NoBreak);
}

#[test]
fn a_breaker_that_is_done_stays_as_it_is() {
    let mut breaker = BreakLines::new(ltr("hello"));
    assert!(breaker.break_next(UNBOUNDED, Alignment::Start).is_some());
    assert!(breaker.done);
    let state = breaker.state;
    let snapshot = breaker.prev_state;
    assert_eq!(breaker.break_next(10 * ONE, Alignment::End), None);
    assert_eq!(breaker.state, state);
    assert_eq!(breaker.prev_state, snapshot);
    assert_eq!(breaker.lines.lines.len(), 1);
}

#[test]
fn text_that_ends_with_a_line_leaves_nothing_to_break() {
    // The space hangs at the end of the text: behind it there is no line.
    let mut breaker = BreakLines::new(ltr("ab "));
    assert_eq!(breaker.break_next(20 * ONE, Alignment::Start), Some((30 * ONE, 0)));
    assert_eq!(breaker.break_next(20 * ONE, Alignment::Start), None);
    assert!(!breaker.done);
    assert_eq!(breaker.lines.lines.len(), 1);
    // The call that found nothing can be reverted as well.
    assert!(breaker.revert());
    assert_eq!(breaker.lines.lines.len(), 1);
    assert_eq!(breaker.break_next(20 * ONE, Alignment::Start), None);
}

#[test]
fn advance_of_a_line_is_the_sum_of_its_clusters() {
    let mut layout = ltr("the quick brown fox jumps");
    for (i, cluster) in layout.clusters.iter_mut().enumerate() {
        cluster.advance = (3 + i as u64 % 7) * ONE;
    }
    let advances: Vec<u64> = layout.clusters.iter().map(|c| c.advance).collect();
    let mut breaker = BreakLines::new(layout);
    while breaker.break_next(40 * ONE, Alignment::Start).is_some() {}
    assert!(breaker.lines.lines.len() > 2);
    for k in 0..breaker.lines.lines.len() {
        let (start, end) = line_clusters(&breaker, k);
        let sum: u64 = advances[start..end].iter().sum();
        assert_eq!(breaker.lines.lines[k].metrics.advance, sum);
    }
}

#[test]
fn width_may_change_from_line_to_line() {
    let mut breaker = BreakLines::new(ltr("aa bb cc dd"));
    assert_eq!(breaker.break_next(30 * ONE, Alignment::Start), Some((30 * ONE, 0)));
    assert_eq!(breaker.break_next(60 * ONE, Alignment::Start), Some((60 * ONE, 0)));
    assert_eq!(breaker.break_next(UNBOUNDED, Alignment::Start), Some((20 * ONE, 0)));
    assert_eq!(breaker.lines.lines[0].max_advance, 30 * ONE);
    assert_eq!(breaker.lines.lines[1].max_advance, 60 * ONE);
    assert_eq!(line_clusters(&breaker, 1), (3, 9));
}

#[test]
fn a_breaker_is_well_formed_between_calls() {
    let texts = ["the quick brown fox", "a\nb\n\nc d", "  lead", "mmmm mmmmmmmm m", "x"];
    let widths = [5 * ONE, 25 * ONE, 40 * ONE, 95 * ONE, UNBOUNDED];
    for text in texts {
        for width in widths {
            let mut breaker = BreakLines::new(ltr(text));
            assert!(breaker.is_well_formed());
            let mut calls = 0;
            while breaker.break_next(width, Alignment::Start).is_some() {
                assert!(breaker.is_well_formed(), "{:?} at {}", text, width);
                calls += 1;
                if calls % 3 == 2 {
                    assert!(breaker.revert());
                    assert!(breaker.is_well_formed(), "{:?} at {}", text, width);
                    assert!(breaker.break_next(width / 2 + ONE, Alignment::Start).is_some());
                    assert!(breaker.is_well_formed(), "{:?} at {}", text, width);
                }
                assert!(calls < 100);
            }
            assert!(breaker.is_well_formed(), "{:?} at {}", text, width);
        }
    }
}

#[test]
fn a_breaker_across_runs_and_ligatures_is_well_formed() {
    let levels = [0, 0, 1, 1, 1, 0, 0, 2, 2, 0, 0, 0];
    let mut layout = shaped("ab CD ef gh", &levels);
    layout.clusters[6].is_ligature_start = true;
    layout.clusters[7].is_ligature_continuation = true;
    for width in [15 * ONE, 35 * ONE, 50 * ONE] {
        let mut breaker = BreakLines::new(shaped("ab CD ef gh", &levels));
        breaker.layout.clusters = layout.clusters.clone();
        assert!(breaker.is_well_formed());
        while breaker.break_next(width, Alignment::Justified).is_some() {
            assert!(breaker.is_well_formed());
        }
        assert!(breaker.is_well_formed());
    }
}

#[test]
fn a_breaker_that_was_tampered_with_is_not_well_formed() {
    let broken = || {
        let mut breaker = BreakLines::new(ltr("hello world again"));
        assert!(breaker.break_next(65 * ONE, Alignment::Start).is_some());
        assert!(breaker.break_next(65 * ONE, Alignment::Start).is_some());
        breaker
    };
    assert!(broken().is_well_formed());
    let mut breaker = broken();
    breaker.state.line.x = ONE;
    assert!(!breaker.is_well_formed());
    let mut breaker = broken();
    breaker.state.cluster_idx += 1;
    assert!(!breaker.is_well_formed());
    let mut breaker = broken();
    breaker.lines.lines[0].metrics.advance += 1;
    assert!(!breaker.is_well_formed());
    let mut breaker = broken();
    breaker.lines.line_items[1].cluster_range.start += 1;
    assert!(!breaker.is_well_formed());
    let mut breaker = broken();
    breaker.lines.lines[0].max_advance = 10 * ONE;
    assert!(!breaker.is_well_formed());
    let mut breaker = broken();
    breaker.lines.lines[0].run_range.end = 2;
    assert!(!breaker.is_well_formed());
    let mut breaker = broken();
    breaker.state.items = 0;
    assert!(!breaker.is_well_formed());
    let mut breaker = broken();
    breaker.prev_state.as_mut().unwrap().lines = 5;
    assert!(!breaker.is_well_formed());
    let mut breaker = broken();
    breaker.layout.runs.clear();
    assert!(!breaker.is_well_formed());
}

#[test]
fn a_hung_space_keeps_the_line_well_formed() {
    let mut breaker = BreakLines::new(ltr("hello world"));
    assert!(breaker.break_next(50 * ONE, Alignment::Start).is_some());
    assert_eq!(breaker.lines.lines[0].metrics.advance, 60 * ONE);
    assert!(breaker.is_well_formed());
    // Without the space the line would not be within its width.
    breaker.layout.clusters[5].info.whitespace = Whitespace::NotWhitespace;
    assert!(!breaker.is_well_formed());
}
