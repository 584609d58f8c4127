use parley::resolve::tree::TreeStyleBuilder;
use parley::resolve::{
    Brush, FontFeaturesId, FontStackId, FontStyle, RangedStyle, ResolvedDecoration,
    ResolvedProperty, ResolvedStyle,
};
use parley::span::Span;

fn plain_decoration() -> ResolvedDecoration {
    ResolvedDecoration { enabled: false, brush: None, offset: 0, size: 0 }
}

fn root_style() -> ResolvedStyle {
    ResolvedStyle {
        font_stack: FontStackId { id: 0 },
        font_size: 16 * 65536,
        font_stretch: 65536,
        font_style: FontStyle::Normal,
        font_weight: 400 * 65536,
        font_features: FontFeaturesId { id: 0 },
        brush: Brush { id: 0 },
        underline: plain_decoration(),
        strikethrough: plain_decoration(),
        line_height: 65536,
        word_spacing: 0,
        letter_spacing: 0,
    }
}

fn ranges(styles: &[RangedStyle]) -> Vec<(usize, usize)> {
    styles.iter().map(|s| (s.range.start, s.range.end)).collect()
}

#[test]
fn tree_without_spans_yields_the_root_style_over_all_text() {
    let mut builder = TreeStyleBuilder::default();
    builder.begin(root_style());
    builder.push_text(5);
    builder.push_text(6);
    let mut out = Vec::new();
    builder.finish(&mut out);
    assert_eq!(out.len(), 1);
    assert_eq!(out[0].range, Span { start: 0, end: 11 });
    assert_eq!(out[0].style, root_style());
}

#[test]
fn tree_nested_spans_flatten_in_text_order() {
    let bold = ResolvedStyle { font_weight: 700 * 65536, ..root_style() };
    let mut builder = TreeStyleBuilder::default();
    builder.begin(root_style());
    builder.push_text(3);
    builder.push_style_span(bold);
    builder.push_text(4);
    builder.push_style_modification_span(&[
        ResolvedProperty::FontStyle(FontStyle::Italic),
        ResolvedProperty::Brush(Brush { id: 7 }),
    ]);
    builder.push_text(2);
    builder.pop_style_span();
    builder.push_text(1);
    builder.pop_style_span();
    builder.push_text(5);
    let mut out = Vec::new();
    builder.finish(&mut out);
    assert_eq!(ranges(&out), vec![(0, 3), (3, 7), (7, 9), (9, 10), (10, 15)]);
    assert_eq!(out[0].style, root_style());
    assert_eq!(out[1].style, bold);
    let bold_italic =
        ResolvedStyle { font_style: FontStyle::Italic, brush: Brush { id: 7 }, ..bold };
    assert_eq!(out[2].style, bold_italic);
    assert_eq!(out[3].style, bold);
    assert_eq!(out[4].style, root_style());
}

#[test]
fn tree_finish_closes_the_spans_left_open() {
    let big = ResolvedStyle { font_size: 32 * 65536, ..root_style() };
    let mut builder = TreeStyleBuilder::default();
    builder.begin(root_style());
    builder.push_style_span(big);
    builder.push_style_span(root_style());
    builder.push_text(4);
    let mut out = Vec::new();
    builder.finish(&mut out);
    assert_eq!(ranges(&out), vec![(0, 4)]);
    assert_eq!(out[0].style, root_style());
    assert_eq!(builder.current_span, 0);
}

#[test]
fn tree_styles_cover_the_text_without_gaps() {
    let mut builder = TreeStyleBuilder::default();
    builder.begin(root_style());
    for i in 0..10usize {
        builder.push_style_modification_span(&[ResolvedProperty::FontSize(i as u64)]);
        builder.push_text(i);
        if i % 3 == 0 {
            builder.pop_style_span();
        }
    }
    let mut out = Vec::new();
    builder.finish(&mut out);
    let mut at = 0;
    for style in &out {
        assert_eq!(style.range.start, at);
        assert!(style.range.start < style.range.end);
        at = style.range.end;
    }
    assert_eq!(at, 45);
}

#[test]
fn tree_text_of_no_length_adds_nothing() {
    let mut builder = TreeStyleBuilder::default();
    builder.begin(root_style());
    builder.push_text(0);
    let mut out = vec![RangedStyle { style: root_style(), range: Span { start: 0, end: 9 } }];
    builder.finish(&mut out);
    assert!(out.is_empty());
}

#[test]
fn tree_finish_before_begin_leaves_the_output_alone() {
    let mut builder = TreeStyleBuilder::default();
    let kept = RangedStyle { style: root_style(), range: Span { start: 0, end: 9 } };
    let mut out = vec![kept];
    builder.finish(&mut out);
    assert_eq!(out, vec![kept]);
}

#[test]
fn tree_begin_discards_the_previous_paragraph() {
    let mut builder = TreeStyleBuilder::default();
    builder.begin(root_style());
    builder.push_text(8);
    let mut out = Vec::new();
    builder.finish(&mut out);
    let other = ResolvedStyle { line_height: 2 * 65536, ..root_style() };
    builder.begin(other);
    builder.push_text(2);
    builder.finish(&mut out);
    assert_eq!(ranges(&out), vec![(0, 2)]);
    assert_eq!(out[0].style, other);
}

#[test]
fn tree_text_of_no_length_leaves_the_builder_as_it_was() {
    let mut builder = TreeStyleBuilder::default();
    builder.begin(root_style());
    builder.push_text(3);
    let nodes = builder.tree.len();
    let span = builder.current_span;
    builder.push_text(0);
    assert_eq!(builder.tree.len(), nodes);
    assert_eq!(builder.current_span, span);
    assert_eq!(builder.total_text_len, 3);
    assert_eq!(builder.text_last_pushed_at, 0);
    assert!(builder.flatted_styles.is_empty());
}

#[test]
fn tree_nodes_hang_below_the_span_that_was_open() {
    let bold = ResolvedStyle { font_weight: 700 * 65536, ..root_style() };
    let mut builder = TreeStyleBuilder::default();
    builder.begin(root_style());
    assert_eq!((builder.tree.len(), builder.current_span), (1, 0));
    assert_eq!(builder.tree[0].parent, None);
    builder.push_style_span(bold);
    assert_eq!((builder.tree.len(), builder.current_span), (2, 1));
    assert_eq!(builder.tree[1].parent, Some(0));
    builder.push_text(4);
    assert_eq!((builder.tree.len(), builder.current_span), (3, 1));
    assert_eq!(builder.tree[2].parent, Some(1));
    builder.push_style_modification_span(&[]);
    assert_eq!((builder.tree.len(), builder.current_span), (4, 3));
    assert_eq!(builder.tree[3].parent, Some(1));
    builder.pop_style_span();
    assert_eq!((builder.tree.len(), builder.current_span), (4, 1));
    builder.pop_style_span();
    assert_eq!((builder.tree.len(), builder.current_span), (4, 0));
}

#[test]
fn tree_builder_tells_whether_it_is_begun() {
    let mut builder = TreeStyleBuilder::default();
    assert!(!builder.is_well_formed());
    builder.begin(root_style());
    builder.push_text(2);
    builder.push_style_span(root_style());
    builder.push_text(2);
    assert!(builder.is_well_formed());
    builder.current_span = 1;
    assert!(!builder.is_well_formed());
    builder.current_span = 2;
    builder.tree[2].parent = Some(2);
    assert!(!builder.is_well_formed());
    builder.tree[2].parent = Some(0);
    builder.text_last_pushed_at = 9;
    assert!(!builder.is_well_formed());
}
