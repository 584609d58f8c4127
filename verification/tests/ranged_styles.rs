use parley::resolve::range::RangedStyleBuilder;
use parley::resolve::{Brush, FontStyle, RangedStyle, ResolvedProperty, ResolvedStyle};
use parley::span::Span;
use parley::units::ONE;

fn flatten(builder: &mut RangedStyleBuilder) -> Vec<RangedStyle> {
    let mut out = Vec::new();
    builder.finish(&mut out);
    out
}

fn ranges(styles: &[RangedStyle]) -> Vec<(usize, usize)> {
    styles.iter().map(|s| (s.range.start, s.range.end)).collect()
}

fn span(start: usize, end: usize) -> Span {
    Span { start, end }
}

#[test]
fn ranged_default_style_covers_the_text() {
    let mut builder = RangedStyleBuilder::default();
    builder.begin(ResolvedStyle::default(), 11);
    let out = flatten(&mut builder);
    assert_eq!(ranges(&out), vec![(0, 11)]);
    assert_eq!(out[0].style, ResolvedStyle::default());
    assert_eq!(out[0].style.font_size, 16 * ONE);
}

#[test]
fn ranged_push_default_changes_the_whole_text() {
    let mut builder = RangedStyleBuilder::default();
    builder.begin(ResolvedStyle::default(), 4);
    builder.push_default(ResolvedProperty::FontSize(20 * ONE));
    builder.push_default(ResolvedProperty::Underline(true));
    let out = flatten(&mut builder);
    assert_eq!(ranges(&out), vec![(0, 4)]);
    assert_eq!(out[0].style.font_size, 20 * ONE);
    assert!(out[0].style.underline.enabled);
}

#[test]
fn ranged_push_splits_the_text_at_its_ends() {
    let mut builder = RangedStyleBuilder::default();
    builder.begin(ResolvedStyle::default(), 10);
    builder.push(ResolvedProperty::FontWeight(700 * ONE), span(2, 5));
    let out = flatten(&mut builder);
    assert_eq!(ranges(&out), vec![(0, 2), (2, 5), (5, 10)]);
    assert_eq!(out[0].style, ResolvedStyle::default());
    assert_eq!(out[1].style.font_weight, 700 * ONE);
    assert_eq!(out[2].style, ResolvedStyle::default());
}

#[test]
fn ranged_later_push_wins_on_overlap() {
    let mut builder = RangedStyleBuilder::default();
    builder.begin(ResolvedStyle::default(), 10);
    builder.push(ResolvedProperty::Brush(Brush { id: 1 }), span(0, 6));
    builder.push(ResolvedProperty::Brush(Brush { id: 2 }), span(4, 8));
    builder.push(ResolvedProperty::FontStyle(FontStyle::Italic), span(5, 7));
    let out = flatten(&mut builder);
    assert_eq!(ranges(&out), vec![(0, 4), (4, 5), (5, 7), (7, 8), (8, 10)]);
    let brushes: Vec<u32> = out.iter().map(|s| s.style.brush.id).collect();
    assert_eq!(brushes, vec![1, 2, 2, 2, 0]);
    let italic: Vec<bool> = out.iter().map(|s| s.style.font_style == FontStyle::Italic).collect();
    assert_eq!(italic, vec![false, false, true, false, false]);
}

#[test]
fn ranged_pushes_out_of_order_are_no_error() {
    let mut builder = RangedStyleBuilder::default();
    builder.begin(ResolvedStyle::default(), 10);
    builder.push(ResolvedProperty::FontSize(ONE), span(6, 9));
    builder.push(ResolvedProperty::FontSize(2 * ONE), span(1, 3));
    let out = flatten(&mut builder);
    assert_eq!(ranges(&out), vec![(0, 1), (1, 3), (3, 6), (6, 9), (9, 10)]);
    assert_eq!(out[1].style.font_size, 2 * ONE);
    assert_eq!(out[3].style.font_size, ONE);
}

#[test]
fn ranged_neighbours_of_one_style_are_joined() {
    let mut builder = RangedStyleBuilder::default();
    builder.begin(ResolvedStyle::default(), 10);
    builder.push(ResolvedProperty::FontSize(20 * ONE), span(2, 5));
    builder.push(ResolvedProperty::FontSize(20 * ONE), span(5, 8));
    // Back to the default size in the middle of the first range.
    builder.push(ResolvedProperty::FontSize(16 * ONE), span(0, 3));
    let out = flatten(&mut builder);
    assert_eq!(ranges(&out), vec![(0, 3), (3, 8), (8, 10)]);
    assert_eq!(out[1].style.font_size, 20 * ONE);
}

#[test]
fn ranged_push_is_held_within_the_text() {
    let mut builder = RangedStyleBuilder::default();
    builder.begin(ResolvedStyle::default(), 5);
    builder.push(ResolvedProperty::LineHeight(2 * ONE), span(3, 50));
    builder.push(ResolvedProperty::LineHeight(3 * ONE), span(9, 12));
    assert_eq!(builder.properties[0].range, span(3, 5));
    assert_eq!(builder.properties[1].range, span(5, 5));
    let out = flatten(&mut builder);
    assert_eq!(ranges(&out), vec![(0, 3), (3, 5)]);
    assert_eq!(out[1].style.line_height, 2 * ONE);
}

#[test]
fn ranged_empty_and_inverted_ranges_change_nothing() {
    let mut builder = RangedStyleBuilder::default();
    builder.begin(ResolvedStyle::default(), 5);
    builder.push(ResolvedProperty::Underline(true), span(2, 2));
    builder.push(ResolvedProperty::Underline(true), span(4, 1));
    let out = flatten(&mut builder);
    assert_eq!(ranges(&out), vec![(0, 5)]);
    assert_eq!(out[0].style, ResolvedStyle::default());
}

#[test]
fn ranged_text_of_no_length_has_no_style() {
    let mut builder = RangedStyleBuilder::default();
    builder.begin(ResolvedStyle::default(), 0);
    builder.push(ResolvedProperty::Underline(true), span(0, 3));
    let mut out = vec![RangedStyle { style: ResolvedStyle::default(), range: span(0, 7) }];
    builder.finish(&mut out);
    assert!(out.is_empty());
}

#[test]
fn ranged_finish_before_begin_leaves_the_output_alone() {
    let mut builder = RangedStyleBuilder::default();
    let kept = RangedStyle { style: ResolvedStyle::default(), range: span(0, 7) };
    let mut out = vec![kept];
    builder.finish(&mut out);
    assert_eq!(out, vec![kept]);
}

#[test]
fn ranged_finish_leaves_the_builder_idle() {
    let mut builder = RangedStyleBuilder::default();
    builder.begin(ResolvedStyle::default(), 3);
    builder.push(ResolvedProperty::Underline(true), span(0, 1));
    let _ = flatten(&mut builder);
    assert_eq!(builder.len, usize::MAX);
    assert!(builder.properties.is_empty());
    let kept = RangedStyle { style: ResolvedStyle::default(), range: span(0, 7) };
    let mut out = vec![kept];
    builder.finish(&mut out);
    assert_eq!(out, vec![kept]);
}

#[test]
fn ranged_styles_cover_the_text_without_gaps() {
    let mut builder = RangedStyleBuilder::default();
    builder.begin(ResolvedStyle::default(), 100);
    for i in 0..40usize {
        let start = (i * 37) % 100;
        let end = start + (i * 11) % 30;
        builder.push(ResolvedProperty::FontSize((i % 5) as u64 * ONE), span(start, end));
    }
    let out = flatten(&mut builder);
    let mut at = 0;
    for (k, style) in out.iter().enumerate() {
        assert_eq!(style.range.start, at);
        assert!(style.range.start < style.range.end);
        if k > 0 {
            assert_ne!(out[k - 1].style, style.style);
        }
        at = style.range.end;
    }
    assert_eq!(at, 100);
}
