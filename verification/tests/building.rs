use fontique::{Collection, CollectionOptions, FamilyId, GenericFamily, SourceCache};
use parley::builder::{
    assign_style_indices, complete_layout, conv_deco, extend_styles, prepare_layout,
    RangedBuilder, TreeBuilder,
};
use parley::context::LayoutContext;
use parley::font::FontContext;
use parley::layout::line::greedy::BreakLines;
use parley::layout::{
    Alignment, Boundary, ClusterData, ClusterInfo, Decoration, InlineBox, LayoutData, RunData,
    RunMetrics, Style, Whitespace,
};
use parley::resolve::{
    Brush, FontFeaturesId, FontStackId, FontStyle, RangedStyle, ResolveContext,
    ResolvedDecoration, ResolvedProperty, ResolvedStyle,
};
use parley::span::Span;
use parley::style::{FontFamily, StyleProperty, TextStyle};
use parley::units::{HALF, ONE, UNBOUNDED};

fn fonts() -> FontContext {
    FontContext {
        collection: Collection::new(CollectionOptions { shared: false, system_fonts: false }),
        source_cache: SourceCache::default(),
    }
}

fn text_style() -> TextStyle {
    TextStyle {
        font_stack: vec![FontFamily::Named("No Such Family".to_string())],
        font_size: 16 * ONE,
        font_stretch: ONE,
        font_style: FontStyle::Normal,
        font_weight: 400 * ONE,
        font_features: FontFeaturesId { id: 0 },
        brush: Brush { id: 3 },
        has_underline: false,
        underline_offset: -2 * ONE as i64,
        underline_size: ONE,
        underline_brush: None,
        has_strikethrough: false,
        strikethrough_offset: 5 * ONE as i64,
        strikethrough_size: ONE,
        strikethrough_brush: None,
        line_height: ONE,
        word_spacing: 0,
        letter_spacing: ONE,
    }
}

fn boxed(id: u64, index: usize) -> InlineBox {
    InlineBox { id, index, width: ONE, height: ONE }
}

fn ranged(style: ResolvedStyle, start: usize, end: usize) -> RangedStyle {
    RangedStyle { style, range: Span { start, end } }
}

/// Stands for the shaper: one run, and a cluster for every byte.
fn shape(layout: &mut LayoutData, text: &[u8]) {
    let text: &[u8] = if text.is_empty() { b" " } else { text };
    for (i, byte) in text.iter().enumerate() {
        layout.clusters.push(ClusterData {
            info: ClusterInfo {
                boundary: Boundary::NoBoundary,
                whitespace: if *byte == b' ' {
                    Whitespace::Space
                } else {
                    Whitespace::NotWhitespace
                },
            },
            is_ligature_start: false,
            is_ligature_continuation: false,
            style_index: 0,
            text_range: Span { start: i, end: i + 1 },
            advance: 10 * ONE,
        });
    }
    layout.runs.push(RunData {
        cluster_range: Span { start: 0, end: text.len() },
        text_range: Span { start: 0, end: text.len() },
        bidi_level: 0,
        metrics: RunMetrics { ascent: 8 * ONE, descent: 2 * ONE, leading: 0 },
    });
}

#[test]
fn style_indices_follow_the_characters() {
    // "aé€z": the characters begin at the bytes 0, 1, 3 and 6.
    let text = "aé€z".as_bytes();
    assert_eq!(text.len(), 7);
    let style = ResolvedStyle::default();
    let styles = vec![ranged(style, 0, 1), ranged(style, 1, 6), ranged(style, 6, 7)];
    let mut indices = vec![9u16; 6];
    assign_style_indices(text, &styles, &mut indices);
    assert_eq!(indices, vec![0, 1, 1, 2, 9, 9]);
}

#[test]
fn style_indices_count_only_the_bytes_that_begin_a_character() {
    // A range that ends within a character: the character belongs to the
    // range in which it begins.
    let text = "éé".as_bytes();
    let style = ResolvedStyle::default();
    let styles = vec![ranged(style, 0, 3), ranged(style, 3, 4)];
    let mut indices = vec![7u16; 2];
    assign_style_indices(text, &styles, &mut indices);
    assert_eq!(indices, vec![0, 0]);
}

#[test]
fn decoration_inherits_the_brush_of_its_style() {
    let own = ResolvedDecoration {
        enabled: true,
        brush: Some(Brush { id: 4 }),
        offset: -3,
        size: 2,
    };
    let default_brush = Brush { id: 1 };
    assert_eq!(
        conv_deco(&own, &default_brush),
        Some(Decoration { brush: Brush { id: 4 }, offset: -3, size: 2 })
    );
    let inherited = ResolvedDecoration { brush: None, ..own };
    assert_eq!(
        conv_deco(&inherited, &default_brush),
        Some(Decoration { brush: Brush { id: 1 }, offset: -3, size: 2 })
    );
    let disabled = ResolvedDecoration { enabled: false, ..own };
    assert_eq!(conv_deco(&disabled, &default_brush), None);
}

#[test]
fn visual_styles_are_copied_in_order() {
    let plain = ResolvedStyle::default();
    let underlined = ResolvedStyle {
        brush: Brush { id: 2 },
        line_height: 2 * ONE,
        underline: ResolvedDecoration { enabled: true, brush: None, offset: 1, size: 1 },
        ..plain
    };
    let mut out = Vec::new();
    extend_styles(&mut out, &vec![ranged(plain, 0, 2), ranged(underlined, 2, 4)]);
    assert_eq!(out.len(), 2);
    assert_eq!(
        out[0],
        Style { brush: Brush { id: 0 }, underline: None, strikethrough: None, line_height: ONE }
    );
    assert_eq!(
        out[1].underline,
        Some(Decoration { brush: Brush { id: 2 }, offset: 1, size: 1 })
    );
    assert_eq!(out[1].line_height, 2 * ONE);
}

#[test]
fn inline_boxes_are_sorted_by_index_and_keep_ties_in_order() {
    let mut lcx = LayoutContext::new();
    lcx.inline_boxes = vec![boxed(1, 9), boxed(2, 3), boxed(3, 9), boxed(4, 0), boxed(5, 3)];
    let mut layout = LayoutData::new();
    prepare_layout(&mut layout, ONE, b"", false, 0, &mut lcx);
    let ids: Vec<u64> = lcx.inline_boxes.iter().map(|b| b.id).collect();
    assert_eq!(ids, vec![4, 2, 5, 1, 3]);
}

#[test]
fn prepare_and_complete_lay_out_a_text() {
    let mut lcx = LayoutContext::new();
    lcx.styles = vec![ranged(ResolvedStyle::default(), 0, 5)];
    lcx.inline_boxes = vec![boxed(1, 4), boxed(2, 1)];
    let mut layout = LayoutData::new();
    layout.width = 7;
    let is_empty = prepare_layout(&mut layout, 2 * ONE, b"hello", true, 1, &mut lcx);
    assert!(!is_empty);
    assert_eq!(layout.scale, 2 * ONE);
    assert!(layout.has_bidi);
    assert_eq!(layout.base_level, 1);
    assert_eq!(layout.text_len, 5);
    assert_eq!(layout.width, 0);
    assert_eq!(layout.styles.len(), 1);
    assert_eq!(lcx.style_indices, vec![0; 5]);
    assert_eq!(lcx.inline_boxes[0].id, 2);
    shape(&mut layout, b"hello");
    complete_layout(&mut layout, &mut lcx, is_empty);
    assert_eq!(layout.inline_boxes.len(), 2);
    assert!(lcx.inline_boxes.is_empty());
    assert_eq!(layout.text_len, 5);
    assert_eq!(layout.clusters.len(), 5);
    assert!(layout.is_well_formed());
}

#[test]
fn empty_text_is_laid_out_as_one_empty_line() {
    let mut lcx = LayoutContext::new();
    let mut layout = LayoutData::new();
    let is_empty = prepare_layout(&mut layout, ONE, b"", false, 0, &mut lcx);
    assert!(is_empty);
    assert_eq!(layout.text_len, 1);
    layout.styles.push(Style {
        brush: Brush { id: 0 },
        underline: None,
        strikethrough: None,
        line_height: ONE,
    });
    shape(&mut layout, b"");
    complete_layout(&mut layout, &mut lcx, is_empty);
    assert_eq!(layout.text_len, 0);
    assert!(layout.clusters.is_empty());
    assert_eq!(layout.runs[0].cluster_range, Span { start: 0, end: 0 });
    assert_eq!(layout.runs[0].text_range, Span { start: 0, end: 0 });
    assert!(layout.is_well_formed());
    let layout = BreakLines::new(layout).break_remaining(UNBOUNDED, Alignment::Start);
    assert_eq!(layout.lines.len(), 1);
    assert_eq!(layout.text_len, 0);
    assert!(layout.clusters.is_empty());
    assert!(layout.height > 0);
}

#[test]
fn properties_are_resolved_at_the_scale() {
    let mut rcx = ResolveContext::new();
    let mut fcx = fonts();
    let scale = ONE + HALF;
    assert_eq!(
        rcx.resolve_property(&mut fcx, &StyleProperty::FontSize(16 * ONE), scale),
        ResolvedProperty::FontSize(24 * ONE)
    );
    assert_eq!(
        rcx.resolve_property(&mut fcx, &StyleProperty::UnderlineOffset(-2 * ONE as i64), scale),
        ResolvedProperty::UnderlineOffset(-3 * ONE as i64)
    );
    assert_eq!(
        rcx.resolve_property(&mut fcx, &StyleProperty::StrikethroughSize(ONE), scale),
        ResolvedProperty::StrikethroughSize(ONE + HALF)
    );
    assert_eq!(
        rcx.resolve_property(&mut fcx, &StyleProperty::LetterSpacing(3), scale),
        ResolvedProperty::LetterSpacing(4)
    );
    // A factor is not scaled.
    assert_eq!(
        rcx.resolve_property(&mut fcx, &StyleProperty::LineHeight(2 * ONE), scale),
        ResolvedProperty::LineHeight(2 * ONE)
    );
    assert_eq!(
        rcx.resolve_property(&mut fcx, &StyleProperty::Brush(Brush { id: 5 }), scale),
        ResolvedProperty::Brush(Brush { id: 5 })
    );
    assert!(rcx.families.is_empty());
}

#[test]
fn font_stacks_are_interned() {
    let mut rcx = ResolveContext::new();
    let a = rcx.intern(&vec![7, 8]);
    let b = rcx.intern(&vec![8, 7]);
    let c = rcx.intern(&vec![7, 8]);
    let d = rcx.intern(&vec![]);
    assert_eq!(a, FontStackId { id: 0 });
    assert_eq!(b, FontStackId { id: 1 });
    assert_eq!(c, a);
    assert_eq!(d, FontStackId { id: 2 });
    assert_eq!(rcx.stack(b), Some(&vec![8, 7]));
    assert_eq!(rcx.stack(FontStackId { id: 3 }), None);
}

#[test]
fn font_stack_lists_the_families_that_the_collection_knows() {
    let mut rcx = ResolveContext::new();
    let mut fcx = fonts();
    let serif = FamilyId::new();
    let other = FamilyId::new();
    fcx.collection.set_generic_families(GenericFamily::Serif, [serif, other].into_iter());
    let stack = vec![
        FontFamily::Named("No Such Family".to_string()),
        FontFamily::Generic(GenericFamily::Serif),
        FontFamily::Generic(GenericFamily::Monospace),
    ];
    let id = rcx.resolve_stack(&mut fcx, &stack);
    assert_eq!(rcx.stack(id), Some(&vec![serif.to_u64(), other.to_u64()]));
    let again = rcx.resolve_property(&mut fcx, &StyleProperty::FontStack(stack), ONE);
    assert_eq!(again, ResolvedProperty::FontStack(id));
    let none = rcx.resolve_stack(&mut fcx, &vec![FontFamily::Named("Nor This".to_string())]);
    assert_ne!(none, id);
    assert_eq!(rcx.stack(none), Some(&vec![]));
}

#[test]
fn whole_styles_are_resolved_at_the_scale() {
    let mut rcx = ResolveContext::new();
    let mut fcx = fonts();
    let resolved = rcx.resolve_entire_style_set(&mut fcx, &text_style(), 2 * ONE);
    assert_eq!(resolved.font_size, 32 * ONE);
    assert_eq!(resolved.letter_spacing, 2 * ONE);
    assert_eq!(resolved.underline.offset, -4 * ONE as i64);
    assert_eq!(resolved.strikethrough.offset, 10 * ONE as i64);
    assert_eq!(resolved.underline.size, 2 * ONE);
    assert_eq!(resolved.line_height, ONE);
    assert_eq!(resolved.brush, Brush { id: 3 });
    assert_eq!(rcx.stack(resolved.font_stack), Some(&vec![]));
}

#[test]
fn ranged_builder_resolves_and_flattens() {
    let text = b"hello world";
    let mut builder = RangedBuilder::new(LayoutContext::new(), fonts(), text.len(), 2 * ONE);
    builder.push_default(&StyleProperty::FontSize(10 * ONE));
    builder.push(&StyleProperty::Brush(Brush { id: 9 }), Span { start: 6, end: 11 });
    builder.push(&StyleProperty::LetterSpacing(ONE), Span { start: 0, end: 3 });
    builder.push_inline_box(boxed(1, 6));
    builder.push_inline_box(boxed(2, 0));
    let mut layout = LayoutData::new();
    let is_empty = builder.prepare(&mut layout, text, false, 0);
    assert!(!is_empty);
    let ranges: Vec<(usize, usize)> =
        builder.lcx.styles.iter().map(|s| (s.range.start, s.range.end)).collect();
    assert_eq!(ranges, vec![(0, 3), (3, 6), (6, 11)]);
    assert_eq!(builder.lcx.styles[0].style.font_size, 20 * ONE);
    assert_eq!(builder.lcx.styles[0].style.letter_spacing, 2 * ONE);
    assert_eq!(builder.lcx.styles[2].style.brush, Brush { id: 9 });
    assert_eq!(builder.lcx.style_indices, vec![0, 0, 0, 1, 1, 1, 2, 2, 2, 2, 2]);
    assert_eq!(layout.styles.len(), 3);
    assert_eq!(layout.styles[2].brush, Brush { id: 9 });
    assert_eq!(layout.scale, 2 * ONE);
    shape(&mut layout, text);
    builder.complete(&mut layout, is_empty);
    let ids: Vec<u64> = layout.inline_boxes.iter().map(|b| b.id).collect();
    assert_eq!(ids, vec![2, 1]);
    let (lcx, _fcx) = builder.finish();
    assert!(lcx.inline_boxes.is_empty());
}

#[test]
fn tree_builder_resolves_and_flattens() {
    let text = b"abcdef";
    let mut builder = TreeBuilder::new(LayoutContext::new(), fonts(), ONE + HALF, &text_style());
    builder.push_text(2);
    builder.push_style_modification_span(&vec![
        StyleProperty::FontSize(10 * ONE),
        StyleProperty::Underline(true),
    ]);
    builder.push_text(3);
    builder.push_style_span(&TextStyle { brush: Brush { id: 8 }, ..text_style() });
    builder.push_text(1);
    builder.pop_style_span();
    builder.push_inline_box(boxed(1, 2));
    let mut layout = LayoutData::new();
    let is_empty = builder.prepare(&mut layout, text, false, 0);
    assert!(!is_empty);
    let styles = &builder.lcx.styles;
    let ranges: Vec<(usize, usize)> = styles.iter().map(|s| (s.range.start, s.range.end)).collect();
    assert_eq!(ranges, vec![(0, 2), (2, 5), (5, 6)]);
    assert_eq!(styles[0].style.font_size, 24 * ONE);
    assert_eq!(styles[1].style.font_size, 15 * ONE);
    assert!(styles[1].style.underline.enabled);
    assert_eq!(styles[2].style.brush, Brush { id: 8 });
    assert_eq!(styles[2].style.font_size, 24 * ONE);
    assert!(layout.styles[1].underline.is_some());
    assert_eq!(layout.styles[1].underline.unwrap().brush, Brush { id: 3 });
    assert_eq!(builder.lcx.style_indices, vec![0, 0, 1, 1, 1, 2]);
}

#[test]
fn an_empty_font_stack_lists_no_family() {
    let mut rcx = ResolveContext::new();
    let mut fcx = fonts();
    rcx.intern(&vec![1]);
    let id = rcx.resolve_stack(&mut fcx, &vec![]);
    assert_eq!(rcx.stack(id), Some(&vec![]));
    assert_eq!(id, FontStackId { id: 1 });
    assert_eq!(rcx.families.len(), 2);
    // The same list again is no new entry.
    assert_eq!(rcx.resolve_stack(&mut fcx, &vec![]), id);
    assert_eq!(rcx.families.len(), 2);
}

#[test]
fn a_table_with_a_list_twice_is_not_well_formed() {
    let mut rcx = ResolveContext::new();
    assert!(rcx.is_well_formed());
    rcx.intern(&vec![1, 2]);
    rcx.intern(&vec![2]);
    assert!(rcx.is_well_formed());
    rcx.families.push(vec![1, 2]);
    assert!(!rcx.is_well_formed());
}

#[test]
fn builders_tell_whether_they_are_begun() {
    let mut ranged = RangedBuilder::new(LayoutContext::new(), fonts(), 3, ONE);
    assert!(ranged.is_well_formed());
    let mut layout = LayoutData::new();
    ranged.prepare(&mut layout, b"abc", false, 0);
    // The styles are flattened: the builder is idle.
    assert!(!ranged.is_well_formed());
    let tree = TreeBuilder::new(LayoutContext::new(), fonts(), ONE, &text_style());
    assert!(tree.is_well_formed());
}

#[test]
fn sorting_keeps_the_boxes() {
    let mut lcx = LayoutContext::new();
    lcx.inline_boxes = vec![boxed(1, 2), boxed(2, 1), boxed(3, 0)];
    let mut layout = LayoutData::new();
    prepare_layout(&mut layout, ONE, b"", false, 0, &mut lcx);
    assert_eq!(lcx.inline_boxes, vec![boxed(3, 0), boxed(2, 1), boxed(1, 2)]);
}
