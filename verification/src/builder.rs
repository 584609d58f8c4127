//! Context for layout: what is done to a layout before its text is shaped,
//! and behind that.

use vstd::prelude::*;
use crate::context::LayoutContext;
use crate::font::FontContext;
use crate::layout::{Decoration, InlineBox, LayoutData, RunData, Style};
use crate::resolve::range::{neighbours_differ, styled_as, RangedProperty, RangedStyleBuilder};
use crate::resolve::{
    covers, lemma_names_stack_grows, names_stack, resolved_style, resolves_to, Brush,
    FontStackId, RangedStyle, ResolvedDecoration, ResolvedProperty, ResolvedStyle,
};
use crate::span::Span;
use crate::style::{StyleProperty, TextStyle};

verus! {

/// The byte is the first of a character of text in UTF-8.
pub open spec fn starts_char(byte: u8) -> bool {
    byte & 0xC0 != 0x80
}

/// The number of characters that begin among the bytes `[from, to)`.
pub open spec fn count_chars(text: Seq<u8>, from: int, to: int) -> int
    decreases to - from,
{
    if to <= from {
        0
    } else if starts_char(text[to - 1]) {
        count_chars(text, from, to - 1) + 1
    } else {
        count_chars(text, from, to - 1)
    }
}

/// More bytes hold at least as many characters.
pub proof fn lemma_count_chars_grows(text: Seq<u8>, from: int, mid: int, to: int)
    requires
        from <= mid <= to,
    ensures
        0 <= count_chars(text, from, mid) <= count_chars(text, from, to),
        count_chars(text, from, to) <= to - from,
        mid < to && starts_char(text[mid]) ==> count_chars(text, from, mid) < count_chars(
            text,
            from,
            to,
        ),
    decreases to - mid,
{
    lemma_count_chars_bounds(text, from, mid);
    lemma_count_chars_bounds(text, from, to);
    if mid < to {
        lemma_count_chars_grows(text, from, mid, to - 1);
    }
}

proof fn lemma_count_chars_bounds(text: Seq<u8>, from: int, to: int)
    ensures
        0 <= count_chars(text, from, to),
        from <= to ==> count_chars(text, from, to) <= to - from,
    decreases to - from,
{
    if from < to {
        lemma_count_chars_bounds(text, from, to - 1);
    }
}

/// The characters that begin among the bytes `[from, to)`, and before
/// style `upto`, have the index of the style in whose range they begin.
pub open spec fn indexed(
    indices: Seq<u16>,
    text: Seq<u8>,
    styles: Seq<RangedStyle>,
    upto: int,
    from: int,
    to: int,
) -> bool {
    forall|k: int, byte: int|
        0 <= k < upto && k < styles.len() && from <= byte < to && 0 <= byte < text.len() && (
        #[trigger] styles[k]).range.contains(byte) && starts_char(#[trigger] text[byte]) ==> 0
            <= count_chars(text, 0, byte) < indices.len() && indices[count_chars(text, 0, byte)]
            == k % 0x10000
}

/// Tells of every character of `text` the style that governs it: the
/// characters are counted through the ranges of `styles` in turn, and
/// `indices` gets for each the index of the style in whose range it begins,
/// as far as 16 bits hold it.
pub fn assign_style_indices(text: &[u8], styles: &Vec<RangedStyle>, indices: &mut Vec<u16>)
    requires
        covers(styles@, text@.len() as int),
        old(indices)@.len() >= count_chars(text@, 0, text@.len() as int),
    ensures
        final(indices)@.len() == old(indices)@.len(),
        indexed(
            final(indices)@,
            text@,
            styles@,
            styles@.len() as int,
            0,
            text@.len() as int,
        ),
        forall|c: int|
            count_chars(text@, 0, text@.len() as int) <= c < old(indices)@.len()
                ==> final(indices)@[c] == old(indices)@[c],
{
    let mut char_index: usize = 0;
    let mut i: usize = 0;
    let ghost len = text@.len() as int;
    while i < styles.len()
        invariant
            i <= styles@.len(),
            len == text@.len(),
            covers(styles@, len),
            indices@.len() == old(indices)@.len(),
            indices@.len() >= count_chars(text@, 0, len),
            char_index == count_chars(
                text@,
                0,
                if i < styles@.len() {
                    styles@[i as int].range.start as int
                } else {
                    len
                },
            ),
            indexed(indices@, text@, styles@, i as int, 0, len),
            forall|c: int| char_index <= c < indices@.len() ==> indices@[c] == old(indices)@[c],
        decreases styles@.len() - i,
    {
        let range = styles[i].range;
        proof {
            lemma_covers_within(styles@, len, i as int);
            if i + 1 < styles@.len() {
                assert(styles@[i as int].range.end == styles@[i + 1].range.start);
            }
        }
        let mut byte = range.start;
        while byte < range.end
            invariant
                i < styles@.len(),
                len == text@.len(),
                range == styles@[i as int].range,
                range.start <= byte <= range.end <= len,
                covers(styles@, len),
                indices@.len() == old(indices)@.len(),
                indices@.len() >= count_chars(text@, 0, len),
                char_index == count_chars(text@, 0, byte as int),
                indexed(indices@, text@, styles@, i as int, 0, len),
                indexed(indices@, text@, styles@, i + 1, range.start as int, byte as int),
                forall|c: int| char_index <= c < indices@.len() ==> indices@[c] == old(indices)@[c],
            decreases range.end - byte,
        {
            let ghost before = indices@;
            proof {
                lemma_count_chars_grows(text@, 0, byte as int, len);
            }
            if text[byte] & 0xC0 != 0x80 {
                indices[char_index] = (i % 0x10000) as u16;
                proof {
                    assert forall|k: int, b: int|
                        0 <= k < i + 1 && k < styles@.len() && 0 <= b < byte + 1 && b < len && (
                        #[trigger] styles@[k]).range.contains(b) && starts_char(
                            #[trigger] text@[b],
                        ) implies 0 <= count_chars(text@, 0, b) < indices@.len()
                        && indices@[count_chars(text@, 0, b)] == k % 0x10000 by {
                        if b < byte {
                            lemma_count_chars_grows(text@, 0, b, byte as int);
                            if k < i {
                                assert(before[count_chars(text@, 0, b)] == k % 0x10000);
                            } else {
                                assert(range.start <= b);
                                assert(before[count_chars(text@, 0, b)] == k % 0x10000);
                            }
                        } else {
                            if k < i {
                                lemma_covers_ordered(styles@, len, k, i as int);
                            }
                        }
                    }
                    assert forall|k: int, b: int|
                        0 <= k < i && k < styles@.len() && 0 <= b < len && (
                        #[trigger] styles@[k]).range.contains(b) && starts_char(
                            #[trigger] text@[b],
                        ) implies 0 <= count_chars(text@, 0, b) < indices@.len()
                        && indices@[count_chars(text@, 0, b)] == k % 0x10000 by {
                        lemma_covers_ordered(styles@, len, k, i as int);
                        lemma_count_chars_grows(text@, 0, b, byte as int);
                        assert(before[count_chars(text@, 0, b)] == k % 0x10000);
                    }
                }
                char_index += 1;
            }
            byte += 1;
        }
        proof {
            assert forall|k: int, b: int|
                0 <= k < i + 1 && k < styles@.len() && 0 <= b < len && (
                #[trigger] styles@[k]).range.contains(b) && starts_char(
                    #[trigger] text@[b],
                ) implies 0 <= count_chars(text@, 0, b) < indices@.len() && indices@[count_chars(
                text@,
                0,
                b,
            )] == k % 0x10000 by {
                if k == i {
                    assert(range.start <= b < range.end);
                }
            }
        }
        i += 1;
    }
}

/// Every range of a cover lies within the bytes that are covered.
pub proof fn lemma_covers_within(styles: Seq<RangedStyle>, len: int, k: int)
    requires
        covers(styles, len),
        0 <= k < styles.len(),
    ensures
        0 <= styles[k].range.start < styles[k].range.end <= len,
    decreases styles.len() - k,
{
    if k + 1 < styles.len() {
        lemma_covers_within(styles, len, k + 1);
        assert(styles[k].range.end == styles[k + 1].range.start);
    }
}

/// The ranges of a cover stand in order.
pub proof fn lemma_covers_ordered(styles: Seq<RangedStyle>, len: int, j: int, k: int)
    requires
        covers(styles, len),
        0 <= j < k < styles.len(),
    ensures
        styles[j].range.end <= styles[k].range.start,
    decreases k - j,
{
    if j + 1 < k {
        lemma_covers_ordered(styles, len, j + 1, k);
        assert(styles[j].range.end == styles[j + 1].range.start);
        assert(styles[j + 1].range.start < styles[j + 1].range.end);
    } else {
        assert(styles[j].range.end == styles[k].range.start);
    }
}

/// A decoration as it is painted, if it is enabled: with its own brush, or
/// else with `default_brush`.
pub open spec fn painted(deco: ResolvedDecoration, default_brush: Brush) -> Option<Decoration> {
    if deco.enabled {
        Some(
            Decoration {
                brush: match deco.brush {
                    Some(brush) => brush,
                    None => default_brush,
                },
                offset: deco.offset,
                size: deco.size,
            },
        )
    } else {
        None
    }
}

/// What a layout keeps of a resolved style.
pub open spec fn visual_style(style: ResolvedStyle) -> Style {
    Style {
        brush: style.brush,
        underline: painted(style.underline, style.brush),
        strikethrough: painted(style.strikethrough, style.brush),
        line_height: style.line_height,
    }
}

/// See `painted`.
pub fn conv_deco(deco: &ResolvedDecoration, default_brush: &Brush) -> (r: Option<Decoration>)
    ensures
        r == painted(*deco, *default_brush),
{
    if deco.enabled {
        Some(
            Decoration {
                brush: match deco.brush {
                    Some(brush) => brush,
                    None => *default_brush,
                },
                offset: deco.offset,
                size: deco.size,
            },
        )
    } else {
        None
    }
}

/// Copies the visual styles of `styles` behind those of `out`.
pub fn extend_styles(out: &mut Vec<Style>, styles: &Vec<RangedStyle>)
    ensures
        final(out)@ == old(out)@ + Seq::new(styles@.len(), |i: int| visual_style(styles@[i].style)),
{
    let mut i: usize = 0;
    while i < styles.len()
        invariant
            i <= styles@.len(),
            out@ == old(out)@ + Seq::new(i as nat, |j: int| visual_style(styles@[j].style)),
        decreases styles@.len() - i,
    {
        let s = &styles[i].style;
        out.push(
            Style {
                brush: s.brush,
                underline: conv_deco(&s.underline, &s.brush),
                strikethrough: conv_deco(&s.strikethrough, &s.brush),
                line_height: s.line_height,
            },
        );
        proof {
            assert(out@ =~= old(out)@ + Seq::new(
                (i + 1) as nat,
                |j: int| visual_style(styles@[j].style),
            ));
        }
        i += 1;
    }
}

/// The boxes stand in the order of their indices.
pub open spec fn sorted_by_index(boxes: Seq<InlineBox>) -> bool {
    forall|i: int, j: int| 0 <= i < j < boxes.len() ==> boxes[i].index <= boxes[j].index
}

/// The boxes that stand before the byte `index`, in their order.
pub open spec fn boxes_at(boxes: Seq<InlineBox>, index: usize) -> Seq<InlineBox> {
    boxes.filter(|b: InlineBox| b.index == index)
}

/// Sorts the boxes by their index with `sort_by_key` of the standard
/// library, which is documented to sort in ascending order of the key and to
/// keep the order of elements with equal keys: afterwards the same boxes
/// stand in the order of their indices, and those with one index are in the
/// same order as before.
#[verifier::external_body]
fn sort_by_index(boxes: &mut Vec<InlineBox>)
    ensures
        final(boxes)@.len() == old(boxes)@.len(),
        final(boxes)@.to_multiset() == old(boxes)@.to_multiset(),
        sorted_by_index(final(boxes)@),
        forall|index: usize| #[trigger] boxes_at(final(boxes)@, index) == boxes_at(old(boxes)@, index),
{
    boxes.sort_by_key(|b| b.index);
}

/// The text that is laid out for `text`: a layout has at least one line, so
/// a single space stands for a text of nothing.
pub open spec fn shaped_len(text: Seq<u8>) -> int {
    if text.len() == 0 {
        1
    } else {
        text.len() as int
    }
}

/// What is done to a layout before its text is shaped: the layout is
/// emptied and gets its scale, its direction and the styles of its text, the
/// characters of the text are told their styles, and the inline boxes are
/// sorted. Returns whether the text holds nothing.
pub fn prepare_layout(
    layout: &mut LayoutData,
    scale: u64,
    text: &[u8],
    has_bidi: bool,
    base_level: u8,
    lcx: &mut LayoutContext,
) -> (is_empty: bool)
    requires
        covers(old(lcx).styles@, text@.len() as int),
    ensures
        is_empty == (text@.len() == 0),
        final(layout).scale == scale,
        final(layout).has_bidi == has_bidi,
        final(layout).base_level == base_level,
        final(layout).text_len == shaped_len(text@),
        final(layout).width == 0 && final(layout).full_width == 0 && final(layout).height == 0,
        final(layout).styles@ == Seq::new(
            old(lcx).styles@.len(),
            |i: int| visual_style(old(lcx).styles@[i].style),
        ),
        final(layout).inline_boxes@.len() == 0,
        final(layout).runs@.len() == 0,
        final(layout).clusters@.len() == 0,
        final(layout).lines@.len() == 0,
        final(layout).line_items@.len() == 0,
        final(lcx).rcx == old(lcx).rcx,
        final(lcx).styles == old(lcx).styles,
        final(lcx).ranged_style_builder == old(lcx).ranged_style_builder,
        final(lcx).tree_style_builder == old(lcx).tree_style_builder,
        final(lcx).style_indices@.len() == count_chars(text@, 0, text@.len() as int),
        indexed(
            final(lcx).style_indices@,
            text@,
            old(lcx).styles@,
            old(lcx).styles@.len() as int,
            0,
            text@.len() as int,
        ),
        final(lcx).inline_boxes@.len() == old(lcx).inline_boxes@.len(),
        final(lcx).inline_boxes@.to_multiset() == old(lcx).inline_boxes@.to_multiset(),
        sorted_by_index(final(lcx).inline_boxes@),
        forall|index: usize| #[trigger]
            boxes_at(final(lcx).inline_boxes@, index) == boxes_at(old(lcx).inline_boxes@, index),
{
    // Force a layout to have at least one line.
    let is_empty = text.len() == 0;

    layout.clear();
    layout.scale = scale;
    layout.has_bidi = has_bidi;
    layout.base_level = base_level;
    layout.text_len = if is_empty {
        1
    } else {
        text.len()
    };

    lcx.style_indices.clear();
    let mut byte: usize = 0;
    while byte < text.len()
        invariant
            byte <= text@.len(),
            lcx.style_indices@.len() == count_chars(text@, 0, byte as int),
            lcx.rcx == old(lcx).rcx,
            lcx.styles == old(lcx).styles,
            lcx.inline_boxes == old(lcx).inline_boxes,
            lcx.ranged_style_builder == old(lcx).ranged_style_builder,
            lcx.tree_style_builder == old(lcx).tree_style_builder,
        decreases text@.len() - byte,
    {
        if text[byte] & 0xC0 != 0x80 {
            lcx.style_indices.push(0);
        }
        byte += 1;
    }
    assign_style_indices(text, &lcx.styles, &mut lcx.style_indices);

    // Copy the visual styles into the layout
    extend_styles(&mut layout.styles, &lcx.styles);
    proof {
        assert(layout.styles@ =~= Seq::new(
            lcx.styles@.len(),
            |i: int| visual_style(lcx.styles@[i].style),
        ));
    }

    // Sort the inline boxes. The sort is stable, so that the caller decides
    // the order of the boxes that stand before the same byte.
    sort_by_index(&mut lcx.inline_boxes);
    is_empty
}

/// `after` is `before` completed behind shaping: it holds the inline boxes
/// `boxes`, and, where the text holds nothing, has no text and no clusters,
/// and its first run ends before its first cluster.
pub open spec fn completed(
    before: LayoutData,
    after: LayoutData,
    boxes: Seq<InlineBox>,
    is_empty: bool,
) -> bool {
    &&& after.inline_boxes@ == boxes
    &&& after.scale == before.scale
    &&& after.has_bidi == before.has_bidi
    &&& after.base_level == before.base_level
    &&& after.width == before.width
    &&& after.full_width == before.full_width
    &&& after.height == before.height
    &&& after.styles == before.styles
    &&& after.lines == before.lines
    &&& after.line_items == before.line_items
    &&& !is_empty ==> {
        &&& after.text_len == before.text_len
        &&& after.runs == before.runs
        &&& after.clusters == before.clusters
    }
    &&& is_empty ==> {
        &&& after.text_len == 0
        &&& after.clusters@.len() == 0
        &&& after.runs@ == before.runs@.update(
            0,
            RunData {
                cluster_range: Span { start: before.runs@[0].cluster_range.start, end: 0 },
                text_range: Span { start: before.runs@[0].text_range.start, end: 0 },
                ..before.runs@[0]
            },
        )
    }
}

/// What is done to a layout behind shaping: the inline boxes move from the
/// context into the layout, and the layout of a text of nothing, which was
/// shaped as a single space, loses its text and its clusters, so that its
/// first run holds no cluster.
pub fn complete_layout(layout: &mut LayoutData, lcx: &mut LayoutContext, is_empty: bool)
    requires
        is_empty ==> old(layout).runs@.len() > 0,
    ensures
        completed(*old(layout), *final(layout), old(lcx).inline_boxes@, is_empty),
        final(lcx).inline_boxes@.len() == 0,
        final(lcx).rcx == old(lcx).rcx,
        final(lcx).styles == old(lcx).styles,
        final(lcx).style_indices == old(lcx).style_indices,
        final(lcx).ranged_style_builder == old(lcx).ranged_style_builder,
        final(lcx).tree_style_builder == old(lcx).tree_style_builder,
{
    // Move inline boxes into the layout
    layout.inline_boxes.clear();
    core::mem::swap(&mut layout.inline_boxes, &mut lcx.inline_boxes);

    // Extra processing if the text is empty
    if is_empty {
        layout.text_len = 0;
        layout.runs[0].cluster_range.end = 0;
        layout.runs[0].text_range.end = 0;
        layout.clusters.clear();
        assert(layout.runs@ =~= old(layout).runs@.update(
            0,
            RunData {
                cluster_range: Span { start: old(layout).runs@[0].cluster_range.start, end: 0 },
                text_range: Span { start: old(layout).runs@[0].text_range.start, end: 0 },
                ..old(layout).runs@[0]
            },
        ));
    }
}

/// Builder for constructing a text layout with ranged attributes.
///
/// The builder owns its contexts while it works: `new` takes them, and
/// `finish` hands them back.
pub struct RangedBuilder {
    pub scale: u64,
    pub lcx: LayoutContext,
    pub fcx: FontContext,
}

impl RangedBuilder {
    /// The table of font stacks is in order, and the style builder is begun.
    pub open spec fn wf(&self) -> bool {
        &&& self.lcx.rcx.wf()
        &&& self.lcx.ranged_style_builder.is_begun()
    }

    /// Tells whether the builder is as its methods ask; see `wf`.
    pub fn is_well_formed(&self) -> (r: bool)
        ensures
            r == self.wf(),
    {
        self.lcx.rcx.is_well_formed() && self.lcx.ranged_style_builder.len != usize::MAX
    }

    /// A builder for a text of `len` bytes at `scale`.
    pub fn new(lcx: LayoutContext, fcx: FontContext, len: usize, scale: u64) -> (r: RangedBuilder)
        requires
            lcx.rcx.wf(),
            len < usize::MAX,
        ensures
            r.wf(),
            r.scale == scale,
            r.lcx.rcx == lcx.rcx,
            r.lcx.ranged_style_builder.len == len,
            r.lcx.ranged_style_builder.default_style == ResolvedStyle::initial(),
            r.lcx.ranged_style_builder.properties@.len() == 0,
            r.lcx.inline_boxes@.len() == 0,
            r.lcx.styles@.len() == 0,
    {
        let mut lcx = lcx;
        lcx.begin();
        lcx.ranged_style_builder.begin(ResolvedStyle::default(), len);
        RangedBuilder { scale, lcx, fcx }
    }

    /// Hands the contexts back.
    pub fn finish(self) -> (r: (LayoutContext, FontContext))
        ensures
            r.0 == self.lcx,
            r.1 == self.fcx,
    {
        (self.lcx, self.fcx)
    }

    /// Sets a property for the whole text.
    pub fn push_default(&mut self, property: &StyleProperty)
        requires
            old(self).wf(),
        ensures
            final(self).wf(),
            final(self).scale == old(self).scale,
            final(self).lcx.rcx.table().take(old(self).lcx.rcx.table().len() as int) == old(
                self,
            ).lcx.rcx.table(),
            exists|r: ResolvedProperty|
                #[trigger] resolves_to(*property, old(self).scale, final(self).lcx.rcx.table(), r) && final(self).lcx.ranged_style_builder.default_style == old(
                    self,
                ).lcx.ranged_style_builder.default_style.with(r),
            final(self).lcx.ranged_style_builder.properties == old(
                self,
            ).lcx.ranged_style_builder.properties,
            final(self).lcx.ranged_style_builder.len == old(self).lcx.ranged_style_builder.len,
            final(self).lcx.inline_boxes == old(self).lcx.inline_boxes,
    {
        let resolved = self.lcx.rcx.resolve_property(&mut self.fcx, property, self.scale);
        self.lcx.ranged_style_builder.push_default(resolved);
    }

    /// Sets a property for the bytes of `range`.
    pub fn push(&mut self, property: &StyleProperty, range: Span)
        requires
            old(self).wf(),
        ensures
            final(self).wf(),
            final(self).scale == old(self).scale,
            final(self).lcx.rcx.table().take(old(self).lcx.rcx.table().len() as int) == old(
                self,
            ).lcx.rcx.table(),
            exists|r: ResolvedProperty|
                #[trigger] resolves_to(*property, old(self).scale, final(self).lcx.rcx.table(), r) && final(self).lcx.ranged_style_builder.properties@ == old(
                    self,
                ).lcx.ranged_style_builder.properties@.push(
                    RangedProperty {
                        property: r,
                        range: RangedStyleBuilder::within(
                            range,
                            old(self).lcx.ranged_style_builder.len,
                        ),
                    },
                ),
            final(self).lcx.ranged_style_builder.default_style == old(
                self,
            ).lcx.ranged_style_builder.default_style,
            final(self).lcx.ranged_style_builder.len == old(self).lcx.ranged_style_builder.len,
            final(self).lcx.inline_boxes == old(self).lcx.inline_boxes,
    {
        let resolved = self.lcx.rcx.resolve_property(&mut self.fcx, property, self.scale);
        self.lcx.ranged_style_builder.push(resolved, range);
    }

    /// Adds a box that is laid out in line with the text.
    pub fn push_inline_box(&mut self, inline_box: InlineBox)
        ensures
            final(self).lcx.inline_boxes@ == old(self).lcx.inline_boxes@.push(inline_box),
            final(self).scale == old(self).scale,
            final(self).lcx.rcx == old(self).lcx.rcx,
            final(self).lcx.ranged_style_builder == old(self).lcx.ranged_style_builder,
    {
        self.lcx.inline_boxes.push(inline_box);
    }

    /// Flattens the styles that were pushed, and prepares `layout` for the
    /// shaping of `text`; see `prepare_layout`. Returns whether the text
    /// holds nothing.
    pub fn prepare(&mut self, layout: &mut LayoutData, text: &[u8], has_bidi: bool, base_level: u8) -> (is_empty:
        bool)
        requires
            old(self).wf(),
            old(self).lcx.ranged_style_builder.len == text@.len(),
        ensures
            is_empty == (text@.len() == 0),
            covers(final(self).lcx.styles@, text@.len() as int),
            styled_as(
                final(self).lcx.styles@,
                old(self).lcx.ranged_style_builder.default_style,
                old(self).lcx.ranged_style_builder.properties@,
                old(self).lcx.ranged_style_builder.properties@.len(),
            ),
            neighbours_differ(final(self).lcx.styles@),
            final(layout).scale == old(self).scale,
            final(layout).has_bidi == has_bidi,
            final(layout).base_level == base_level,
            final(layout).text_len == shaped_len(text@),
            final(layout).styles@ == Seq::new(
                final(self).lcx.styles@.len(),
                |i: int| visual_style(final(self).lcx.styles@[i].style),
            ),
            final(layout).runs@.len() == 0,
            final(layout).clusters@.len() == 0,
            final(layout).lines@.len() == 0,
            final(layout).line_items@.len() == 0,
            indexed(
                final(self).lcx.style_indices@,
                text@,
                final(self).lcx.styles@,
                final(self).lcx.styles@.len() as int,
                0,
                text@.len() as int,
            ),
            final(self).lcx.inline_boxes@.len() == old(self).lcx.inline_boxes@.len(),
            final(self).lcx.inline_boxes@.to_multiset() == old(self).lcx.inline_boxes@.to_multiset(),
            sorted_by_index(final(self).lcx.inline_boxes@),
            forall|index: usize| #[trigger]
                boxes_at(final(self).lcx.inline_boxes@, index) == boxes_at(
                    old(self).lcx.inline_boxes@,
                    index,
                ),
            final(self).lcx.rcx == old(self).lcx.rcx,
            final(self).scale == old(self).scale,
    {
        // Apply RangedStyleBuilder styles to LayoutContext
        self.lcx.ranged_style_builder.finish(&mut self.lcx.styles);

        // Call generic layout builder method
        prepare_layout(layout, self.scale, text, has_bidi, base_level, &mut self.lcx)
    }

    /// Completes `layout` behind the shaping of its text; see
    /// `complete_layout`.
    pub fn complete(&mut self, layout: &mut LayoutData, is_empty: bool)
        requires
            is_empty ==> old(layout).runs@.len() > 0,
        ensures
            completed(*old(layout), *final(layout), old(self).lcx.inline_boxes@, is_empty),
            final(self).lcx.inline_boxes@.len() == 0,
            final(self).scale == old(self).scale,
            final(self).lcx.rcx == old(self).lcx.rcx,
            final(self).lcx.styles == old(self).lcx.styles,
            final(self).lcx.style_indices == old(self).lcx.style_indices,
            final(self).lcx.ranged_style_builder == old(self).lcx.ranged_style_builder,
            final(self).lcx.tree_style_builder == old(self).lcx.tree_style_builder,
    {
        complete_layout(layout, &mut self.lcx, is_empty);
    }
}

/// `resolved` is what the properties resolve to at `scale`, one by one; see
/// `resolves_to`.
pub open spec fn all_resolve_to(
    properties: Seq<StyleProperty>,
    scale: u64,
    table: Seq<Seq<u64>>,
    resolved: Seq<ResolvedProperty>,
) -> bool {
    &&& resolved.len() == properties.len()
    &&& forall|i: int|
        0 <= i < properties.len() ==> resolves_to(
            #[trigger] properties[i],
            scale,
            table,
            resolved[i],
        )
}

/// Builder for constructing a text layout with a tree of attributes.
///
/// The builder owns its contexts while it works: `new` takes them, and
/// `finish` hands them back.
pub struct TreeBuilder {
    pub scale: u64,
    pub lcx: LayoutContext,
    pub fcx: FontContext,
}

impl TreeBuilder {
    /// The table of font stacks is in order, and the style builder is begun.
    pub open spec fn wf(&self) -> bool {
        &&& self.lcx.rcx.wf()
        &&& self.lcx.tree_style_builder.wf()
    }

    /// Tells whether the builder is as its methods ask; see `wf`.
    pub fn is_well_formed(&self) -> (r: bool)
        ensures
            r == self.wf(),
    {
        self.lcx.rcx.is_well_formed() && self.lcx.tree_style_builder.is_well_formed()
    }

    /// A builder at `scale` for a text whose root style is `root_style`.
    pub fn new(lcx: LayoutContext, fcx: FontContext, scale: u64, root_style: &TextStyle) -> (r:
        TreeBuilder)
        requires
            lcx.rcx.wf(),
        ensures
            r.wf(),
            r.scale == scale,
            r.lcx.rcx.table().take(lcx.rcx.table().len() as int) == lcx.rcx.table(),
            exists|id: FontStackId|
                names_stack(root_style.font_stack@, r.lcx.rcx.table(), id)
                    && r.lcx.tree_style_builder.open_styles()
                    == seq![#[trigger] resolved_style(*root_style, scale, id)],
            r.lcx.tree_style_builder.flatted_styles@.len() == 0,
            r.lcx.tree_style_builder.total_text_len == 0,
            r.lcx.tree_style_builder.text_last_pushed_at == 0,
            r.lcx.inline_boxes@.len() == 0,
            r.lcx.styles@.len() == 0,
    {
        let mut lcx = lcx;
        let mut fcx = fcx;
        lcx.begin();
        let resolved_root_style = lcx.rcx.resolve_entire_style_set(&mut fcx, root_style, scale);
        lcx.tree_style_builder.begin(resolved_root_style);
        proof {
            assert(lcx.tree_style_builder.open_styles() == seq![
                resolved_style(*root_style, scale, resolved_root_style.font_stack),
            ]);
        }
        TreeBuilder { scale, lcx, fcx }
    }

    /// Hands the contexts back.
    pub fn finish(self) -> (r: (LayoutContext, FontContext))
        ensures
            r.0 == self.lcx,
            r.1 == self.fcx,
    {
        (self.lcx, self.fcx)
    }

    /// Opens a span whose style is `style`, resolved at the builder's scale.
    pub fn push_style_span(&mut self, style: &TextStyle)
        requires
            old(self).wf(),
        ensures
            final(self).wf(),
            final(self).scale == old(self).scale,
            final(self).lcx.rcx.table().take(old(self).lcx.rcx.table().len() as int) == old(
                self,
            ).lcx.rcx.table(),
            exists|id: FontStackId|
                names_stack(style.font_stack@, final(self).lcx.rcx.table(), id)
                    && final(self).lcx.tree_style_builder.open_styles() == old(
                    self,
                ).lcx.tree_style_builder.open_styles().push(
                    #[trigger] resolved_style(*style, old(self).scale, id),
                ),
            final(self).lcx.tree_style_builder.flatted_styles@ == old(
                self,
            ).lcx.tree_style_builder.flushed(),
            final(self).lcx.tree_style_builder.total_text_len == old(
                self,
            ).lcx.tree_style_builder.total_text_len,
            final(self).lcx.inline_boxes == old(self).lcx.inline_boxes,
    {
        let resolved = self.lcx.rcx.resolve_entire_style_set(&mut self.fcx, style, self.scale);
        self.lcx.tree_style_builder.push_style_span(resolved);
        proof {
            assert(self.lcx.tree_style_builder.open_styles() == old(
                self,
            ).lcx.tree_style_builder.open_styles().push(
                resolved_style(*style, old(self).scale, resolved.font_stack),
            ));
        }
    }

    /// Opens a span whose style is the current style with `properties`,
    /// resolved at the builder's scale, applied to it in turn.
    pub fn push_style_modification_span(&mut self, properties: &Vec<StyleProperty>)
        requires
            old(self).wf(),
        ensures
            final(self).wf(),
            final(self).scale == old(self).scale,
            final(self).lcx.rcx.table().take(old(self).lcx.rcx.table().len() as int) == old(
                self,
            ).lcx.rcx.table(),
            exists|resolved: Seq<ResolvedProperty>|
                #[trigger] all_resolve_to(
                    properties@,
                    old(self).scale,
                    final(self).lcx.rcx.table(),
                    resolved,
                ) && final(self).lcx.tree_style_builder.open_styles() == old(
                    self,
                ).lcx.tree_style_builder.open_styles().push(
                    old(self).lcx.tree_style_builder.spec_current_style().with_all(
                        resolved,
                        resolved.len(),
                    ),
                ),
            final(self).lcx.tree_style_builder.flatted_styles@ == old(
                self,
            ).lcx.tree_style_builder.flushed(),
            final(self).lcx.tree_style_builder.total_text_len == old(
                self,
            ).lcx.tree_style_builder.total_text_len,
            final(self).lcx.inline_boxes == old(self).lcx.inline_boxes,
    {
        let mut resolved: Vec<ResolvedProperty> = Vec::new();
        let mut i: usize = 0;
        while i < properties.len()
            invariant
                i <= properties@.len(),
                self.lcx.rcx.wf(),
                self.scale == old(self).scale,
                self.lcx.tree_style_builder == old(self).lcx.tree_style_builder,
                self.lcx.inline_boxes == old(self).lcx.inline_boxes,
                self.lcx.rcx.table().len() >= old(self).lcx.rcx.table().len(),
                self.lcx.rcx.table().take(old(self).lcx.rcx.table().len() as int) == old(
                    self,
                ).lcx.rcx.table(),
                all_resolve_to(
                    properties@.take(i as int),
                    self.scale,
                    self.lcx.rcx.table(),
                    resolved@,
                ),
            decreases properties@.len() - i,
        {
            let ghost table = self.lcx.rcx.table();
            let ghost so_far = resolved@;
            let property = self.lcx.rcx.resolve_property(&mut self.fcx, &properties[i], self.scale);
            resolved.push(property);
            proof {
                let now = self.lcx.rcx.table();
                assert(now.take(table.len() as int) == table);
                assert(now.len() >= table.len());
                assert(now.take(old(self).lcx.rcx.table().len() as int) =~= old(
                    self,
                ).lcx.rcx.table()) by {
                    assert forall|j: int| 0 <= j < old(self).lcx.rcx.table().len() implies now[j]
                        == old(self).lcx.rcx.table()[j] by {
                        assert(now.take(table.len() as int)[j] == now[j]);
                        assert(table.take(old(self).lcx.rcx.table().len() as int)[j] == table[j]);
                    }
                }
                assert forall|j: int| 0 <= j < i + 1 implies resolves_to(
                    #[trigger] properties@.take(i + 1)[j],
                    self.scale,
                    now,
                    resolved@[j],
                ) by {
                    if j < i {
                        assert(properties@.take(i as int)[j] == properties@.take(i + 1)[j]);
                        assert(resolves_to(properties@.take(i as int)[j], self.scale, table, so_far[j]));
                        match (properties@[j], so_far[j]) {
                            (StyleProperty::FontStack(stack), ResolvedProperty::FontStack(id)) => {
                                lemma_names_stack_grows(stack@, table, now, id);
                            },
                            _ => {},
                        }
                    }
                }
            }
            i += 1;
        }
        proof {
            assert(properties@.take(i as int) =~= properties@);
        }
        self.lcx.tree_style_builder.push_style_modification_span(resolved.as_slice());
    }

    /// Closes the current span.
    pub fn pop_style_span(&mut self)
        requires
            old(self).wf(),
            old(self).lcx.tree_style_builder.open_styles().len() > 1,
        ensures
            final(self).wf(),
            final(self).scale == old(self).scale,
            final(self).lcx.rcx == old(self).lcx.rcx,
            final(self).lcx.tree_style_builder.open_styles() == old(
                self,
            ).lcx.tree_style_builder.open_styles().drop_last(),
            final(self).lcx.tree_style_builder.flatted_styles@ == old(
                self,
            ).lcx.tree_style_builder.flushed(),
            final(self).lcx.tree_style_builder.total_text_len == old(
                self,
            ).lcx.tree_style_builder.total_text_len,
            final(self).lcx.inline_boxes == old(self).lcx.inline_boxes,
    {
        self.lcx.tree_style_builder.pop_style_span();
    }

    /// Adds `len` bytes of text to the current span.
    pub fn push_text(&mut self, len: usize)
        requires
            old(self).wf(),
            old(self).lcx.tree_style_builder.total_text_len + len < usize::MAX,
        ensures
            final(self).wf(),
            final(self).scale == old(self).scale,
            final(self).lcx.rcx == old(self).lcx.rcx,
            final(self).lcx.tree_style_builder.open_styles() == old(
                self,
            ).lcx.tree_style_builder.open_styles(),
            final(self).lcx.tree_style_builder.flatted_styles == old(
                self,
            ).lcx.tree_style_builder.flatted_styles,
            final(self).lcx.tree_style_builder.total_text_len == old(
                self,
            ).lcx.tree_style_builder.total_text_len + len,
            final(self).lcx.inline_boxes == old(self).lcx.inline_boxes,
    {
        self.lcx.tree_style_builder.push_text(len);
    }

    /// Adds a box that is laid out in line with the text.
    pub fn push_inline_box(&mut self, inline_box: InlineBox)
        ensures
            final(self).lcx.inline_boxes@ == old(self).lcx.inline_boxes@.push(inline_box),
            final(self).scale == old(self).scale,
            final(self).lcx.rcx == old(self).lcx.rcx,
            final(self).lcx.tree_style_builder == old(self).lcx.tree_style_builder,
    {
        self.lcx.inline_boxes.push(inline_box);
    }

    /// Closes the spans that are open, flattens the styles, and prepares
    /// `layout` for the shaping of `text`; see `prepare_layout`. Returns
    /// whether the text holds nothing.
    pub fn prepare(&mut self, layout: &mut LayoutData, text: &[u8], has_bidi: bool, base_level: u8) -> (is_empty:
        bool)
        requires
            old(self).wf(),
            old(self).lcx.tree_style_builder.total_text_len == text@.len(),
        ensures
            is_empty == (text@.len() == 0),
            final(self).lcx.styles@ == old(self).lcx.tree_style_builder.flushed(),
            covers(final(self).lcx.styles@, text@.len() as int),
            final(layout).scale == old(self).scale,
            final(layout).has_bidi == has_bidi,
            final(layout).base_level == base_level,
            final(layout).text_len == shaped_len(text@),
            final(layout).styles@ == Seq::new(
                final(self).lcx.styles@.len(),
                |i: int| visual_style(final(self).lcx.styles@[i].style),
            ),
            final(layout).runs@.len() == 0,
            final(layout).clusters@.len() == 0,
            final(layout).lines@.len() == 0,
            final(layout).line_items@.len() == 0,
            indexed(
                final(self).lcx.style_indices@,
                text@,
                final(self).lcx.styles@,
                final(self).lcx.styles@.len() as int,
                0,
                text@.len() as int,
            ),
            final(self).lcx.inline_boxes@.len() == old(self).lcx.inline_boxes@.len(),
            final(self).lcx.inline_boxes@.to_multiset() == old(self).lcx.inline_boxes@.to_multiset(),
            sorted_by_index(final(self).lcx.inline_boxes@),
            forall|index: usize| #[trigger]
                boxes_at(final(self).lcx.inline_boxes@, index) == boxes_at(
                    old(self).lcx.inline_boxes@,
                    index,
                ),
            final(self).lcx.rcx == old(self).lcx.rcx,
            final(self).scale == old(self).scale,
    {
        // Apply TreeStyleBuilder styles to LayoutContext
        self.lcx.tree_style_builder.finish(&mut self.lcx.styles);

        // Call generic layout builder method
        prepare_layout(layout, self.scale, text, has_bidi, base_level, &mut self.lcx)
    }

    /// Completes `layout` behind the shaping of its text; see
    /// `complete_layout`.
    pub fn complete(&mut self, layout: &mut LayoutData, is_empty: bool)
        requires
            is_empty ==> old(layout).runs@.len() > 0,
        ensures
            completed(*old(layout), *final(layout), old(self).lcx.inline_boxes@, is_empty),
            final(self).lcx.inline_boxes@.len() == 0,
            final(self).scale == old(self).scale,
            final(self).lcx.rcx == old(self).lcx.rcx,
            final(self).lcx.styles == old(self).lcx.styles,
            final(self).lcx.style_indices == old(self).lcx.style_indices,
            final(self).lcx.ranged_style_builder == old(self).lcx.ranged_style_builder,
            final(self).lcx.tree_style_builder == old(self).lcx.tree_style_builder,
    {
        complete_layout(layout, &mut self.lcx, is_empty);
    }
}

} // verus!
