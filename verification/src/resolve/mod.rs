//! Resolved styles and the builders that lay them over a text.

pub mod range;
pub mod tree;

use vstd::prelude::*;
use crate::font::{family_id, generic_families, FontContext};
use crate::span::Span;
use crate::style::{FontFamily, StyleProperty, TextStyle};
use crate::units::{scale_by, scale_offset, scaled, scaled_offset, ONE};

verus! {

/// A paint, named by its place in the caller's table of paints. Layout
/// carries it through and never looks inside.
#[derive(Clone, Copy, Debug, PartialEq, Eq, Structural)]
pub struct Brush {
    pub id: u32,
}

/// An interned, ordered list of font families.
#[derive(Clone, Copy, Debug, PartialEq, Eq, Structural)]
pub struct FontStackId {
    pub id: usize,
}

/// An interned set of font features.
#[derive(Clone, Copy, Debug, PartialEq, Eq, Structural)]
pub struct FontFeaturesId {
    pub id: usize,
}

/// The slant of a font.
#[derive(Clone, Copy, Debug, PartialEq, Eq, Structural)]
pub enum FontStyle {
    Normal,
    Italic,
    Oblique,
}

/// An underline or a strikethrough. Where it is enabled without a brush of
/// its own, it is painted with the brush of the style that owns it.
#[derive(Clone, Copy, Debug, PartialEq, Eq, Structural)]
pub struct ResolvedDecoration {
    pub enabled: bool,
    pub brush: Option<Brush>,
    pub offset: i64,
    pub size: u64,
}

/// The complete visual state at one point of the text. Sizes are absolute
/// layout units after scaling; `line_height` is a fixed-point factor.
#[derive(Clone, Copy, Debug, PartialEq, Eq, Structural)]
pub struct ResolvedStyle {
    pub font_stack: FontStackId,
    pub font_size: u64,
    pub font_stretch: u64,
    pub font_style: FontStyle,
    pub font_weight: u64,
    pub font_features: FontFeaturesId,
    pub brush: Brush,
    pub underline: ResolvedDecoration,
    pub strikethrough: ResolvedDecoration,
    pub line_height: u64,
    pub word_spacing: u64,
    pub letter_spacing: u64,
}

/// One attribute of a style, with its resolved value.
#[derive(Clone, Copy, Debug, PartialEq, Eq, Structural)]
pub enum ResolvedProperty {
    FontStack(FontStackId),
    FontSize(u64),
    FontStretch(u64),
    FontStyle(FontStyle),
    FontWeight(u64),
    FontFeatures(FontFeaturesId),
    Brush(Brush),
    Underline(bool),
    UnderlineOffset(i64),
    UnderlineSize(u64),
    UnderlineBrush(Option<Brush>),
    Strikethrough(bool),
    StrikethroughOffset(i64),
    StrikethroughSize(u64),
    StrikethroughBrush(Option<Brush>),
    LineHeight(u64),
    WordSpacing(u64),
    LetterSpacing(u64),
}

/// A style and the bytes of the text that it governs.
#[derive(Clone, Copy, Debug, PartialEq, Eq, Structural)]
pub struct RangedStyle {
    pub style: ResolvedStyle,
    pub range: Span,
}

impl ResolvedDecoration {
    /// A decoration that is not painted.
    pub open spec fn none() -> ResolvedDecoration {
        ResolvedDecoration { enabled: false, brush: None, offset: 0, size: 0 }
    }
}

impl Default for ResolvedDecoration {
    fn default() -> (r: Self)
        ensures
            r == ResolvedDecoration::none(),
    {
        ResolvedDecoration { enabled: false, brush: None, offset: 0, size: 0 }
    }
}

impl Default for ResolvedStyle {
    fn default() -> (r: Self)
        ensures
            r == ResolvedStyle::initial(),
    {
        ResolvedStyle {
            font_stack: FontStackId { id: 0 },
            font_size: 16 * ONE,
            font_stretch: ONE,
            font_style: FontStyle::Normal,
            font_weight: 400 * ONE,
            font_features: FontFeaturesId { id: 0 },
            brush: Brush { id: 0 },
            underline: ResolvedDecoration::default(),
            strikethrough: ResolvedDecoration::default(),
            line_height: ONE,
            word_spacing: 0,
            letter_spacing: 0,
        }
    }
}

impl ResolvedStyle {
    /// The style of text of which nothing is said: the first font stack and
    /// brush, upright, of normal weight and width, 16 units high, with a line
    /// height of 1 and without decoration or spacing.
    pub open spec fn initial() -> ResolvedStyle {
        ResolvedStyle {
            font_stack: FontStackId { id: 0 },
            font_size: (16 * ONE) as u64,
            font_stretch: ONE,
            font_style: FontStyle::Normal,
            font_weight: (400 * ONE) as u64,
            font_features: FontFeaturesId { id: 0 },
            brush: Brush { id: 0 },
            underline: ResolvedDecoration::none(),
            strikethrough: ResolvedDecoration::none(),
            line_height: ONE,
            word_spacing: 0,
            letter_spacing: 0,
        }
    }

    /// The style with one attribute replaced.
    pub open spec fn with(self, property: ResolvedProperty) -> ResolvedStyle {
        match property {
            ResolvedProperty::FontStack(v) => ResolvedStyle { font_stack: v, ..self },
            ResolvedProperty::FontSize(v) => ResolvedStyle { font_size: v, ..self },
            ResolvedProperty::FontStretch(v) => ResolvedStyle { font_stretch: v, ..self },
            ResolvedProperty::FontStyle(v) => ResolvedStyle { font_style: v, ..self },
            ResolvedProperty::FontWeight(v) => ResolvedStyle { font_weight: v, ..self },
            ResolvedProperty::FontFeatures(v) => ResolvedStyle { font_features: v, ..self },
            ResolvedProperty::Brush(v) => ResolvedStyle { brush: v, ..self },
            ResolvedProperty::Underline(v) => ResolvedStyle {
                underline: ResolvedDecoration { enabled: v, ..self.underline },
                ..self
            },
            ResolvedProperty::UnderlineOffset(v) => ResolvedStyle {
                underline: ResolvedDecoration { offset: v, ..self.underline },
                ..self
            },
            ResolvedProperty::UnderlineSize(v) => ResolvedStyle {
                underline: ResolvedDecoration { size: v, ..self.underline },
                ..self
            },
            ResolvedProperty::UnderlineBrush(v) => ResolvedStyle {
                underline: ResolvedDecoration { brush: v, ..self.underline },
                ..self
            },
            ResolvedProperty::Strikethrough(v) => ResolvedStyle {
                strikethrough: ResolvedDecoration { enabled: v, ..self.strikethrough },
                ..self
            },
            ResolvedProperty::StrikethroughOffset(v) => ResolvedStyle {
                strikethrough: ResolvedDecoration { offset: v, ..self.strikethrough },
                ..self
            },
            ResolvedProperty::StrikethroughSize(v) => ResolvedStyle {
                strikethrough: ResolvedDecoration { size: v, ..self.strikethrough },
                ..self
            },
            ResolvedProperty::StrikethroughBrush(v) => ResolvedStyle {
                strikethrough: ResolvedDecoration { brush: v, ..self.strikethrough },
                ..self
            },
            ResolvedProperty::LineHeight(v) => ResolvedStyle { line_height: v, ..self },
            ResolvedProperty::WordSpacing(v) => ResolvedStyle { word_spacing: v, ..self },
            ResolvedProperty::LetterSpacing(v) => ResolvedStyle { letter_spacing: v, ..self },
        }
    }

    /// The style after the first `n` of `properties` replaced their
    /// attributes in turn, so that a later one wins over an earlier one.
    pub open spec fn with_all(self, properties: Seq<ResolvedProperty>, n: nat) -> ResolvedStyle
        decreases n,
    {
        if n == 0 || n > properties.len() {
            self
        } else {
            self.with_all(properties, (n - 1) as nat).with(properties[n - 1])
        }
    }

    /// Replaces the attribute that `property` names.
    pub fn apply(&mut self, property: ResolvedProperty)
        ensures
            *final(self) == old(self).with(property),
    {
        match property {
            ResolvedProperty::FontStack(v) => self.font_stack = v,
            ResolvedProperty::FontSize(v) => self.font_size = v,
            ResolvedProperty::FontStretch(v) => self.font_stretch = v,
            ResolvedProperty::FontStyle(v) => self.font_style = v,
            ResolvedProperty::FontWeight(v) => self.font_weight = v,
            ResolvedProperty::FontFeatures(v) => self.font_features = v,
            ResolvedProperty::Brush(v) => self.brush = v,
            ResolvedProperty::Underline(v) => self.underline.enabled = v,
            ResolvedProperty::UnderlineOffset(v) => self.underline.offset = v,
            ResolvedProperty::UnderlineSize(v) => self.underline.size = v,
            ResolvedProperty::UnderlineBrush(v) => self.underline.brush = v,
            ResolvedProperty::Strikethrough(v) => self.strikethrough.enabled = v,
            ResolvedProperty::StrikethroughOffset(v) => self.strikethrough.offset = v,
            ResolvedProperty::StrikethroughSize(v) => self.strikethrough.size = v,
            ResolvedProperty::StrikethroughBrush(v) => self.strikethrough.brush = v,
            ResolvedProperty::LineHeight(v) => self.line_height = v,
            ResolvedProperty::WordSpacing(v) => self.word_spacing = v,
            ResolvedProperty::LetterSpacing(v) => self.letter_spacing = v,
        }
    }
}

/// The ranges of `styles` are non-empty, follow one another without a gap or
/// an overlap, and cover exactly the bytes `[0, len)`.
pub open spec fn covers(styles: Seq<RangedStyle>, len: int) -> bool {
    &&& forall|i: int|
        0 <= i < styles.len() ==> (#[trigger] styles[i]).range.start < styles[i].range.end
    &&& forall|i: int, j: int|
        0 <= i && j == i + 1 && j < styles.len() ==> (#[trigger] styles[i]).range.end == (
        #[trigger] styles[j]).range.start
    &&& styles.len() > 0 ==> styles[0].range.start == 0
    &&& len == (if styles.len() == 0 {
        0
    } else {
        styles[styles.len() - 1].range.end as int
    })
}

/// Tells whether the ranges of `styles` cover the bytes `[0, len)`; see
/// `covers`.
pub fn is_cover(styles: &Vec<RangedStyle>, len: usize) -> (r: bool)
    ensures
        r == covers(styles@, len as int),
{
    let count = styles.len();
    if count == 0 {
        return len == 0;
    }
    if styles[0].range.start != 0 || styles[count - 1].range.end != len {
        return false;
    }
    let mut i: usize = 0;
    while i < count
        invariant
            i <= count,
            count == styles@.len(),
            forall|k: int| 0 <= k < i ==> (#[trigger] styles@[k]).range.start < styles@[k].range.end,
            forall|j: int, k: int|
                0 <= j && k == j + 1 && k < count && j < i ==> (#[trigger] styles@[j]).range.end
                    == (#[trigger] styles@[k]).range.start,
        decreases count - i,
    {
        let range = styles[i].range;
        if range.start >= range.end {
            return false;
        }
        if i + 1 < count && range.end != styles[i + 1].range.start {
            return false;
        }
        i += 1;
    }
    true
}

/// What a property resolves to at `scale`, but for a font stack: sizes,
/// decoration offsets and sizes, and spacings are multiplied by the scale.
pub open spec fn resolved(property: StyleProperty, scale: u64) -> ResolvedProperty {
    match property {
        StyleProperty::FontStack(_) => arbitrary(),
        StyleProperty::FontSize(v) => ResolvedProperty::FontSize(scaled(v, scale)),
        StyleProperty::FontStretch(v) => ResolvedProperty::FontStretch(v),
        StyleProperty::FontStyle(v) => ResolvedProperty::FontStyle(v),
        StyleProperty::FontWeight(v) => ResolvedProperty::FontWeight(v),
        StyleProperty::FontFeatures(v) => ResolvedProperty::FontFeatures(v),
        StyleProperty::Brush(v) => ResolvedProperty::Brush(v),
        StyleProperty::Underline(v) => ResolvedProperty::Underline(v),
        StyleProperty::UnderlineOffset(v) => ResolvedProperty::UnderlineOffset(
            scaled_offset(v, scale),
        ),
        StyleProperty::UnderlineSize(v) => ResolvedProperty::UnderlineSize(scaled(v, scale)),
        StyleProperty::UnderlineBrush(v) => ResolvedProperty::UnderlineBrush(v),
        StyleProperty::Strikethrough(v) => ResolvedProperty::Strikethrough(v),
        StyleProperty::StrikethroughOffset(v) => ResolvedProperty::StrikethroughOffset(
            scaled_offset(v, scale),
        ),
        StyleProperty::StrikethroughSize(v) => ResolvedProperty::StrikethroughSize(
            scaled(v, scale),
        ),
        StyleProperty::StrikethroughBrush(v) => ResolvedProperty::StrikethroughBrush(v),
        StyleProperty::LineHeight(v) => ResolvedProperty::LineHeight(v),
        StyleProperty::WordSpacing(v) => ResolvedProperty::WordSpacing(scaled(v, scale)),
        StyleProperty::LetterSpacing(v) => ResolvedProperty::LetterSpacing(scaled(v, scale)),
    }
}

/// `lists` can be what a font collection answers for the families of
/// `stack`, one list for each: for a family that is named, no identifier or
/// one; for a generic family, any number.
pub open spec fn answers(stack: Seq<FontFamily>, lists: Seq<Seq<u64>>) -> bool {
    &&& lists.len() == stack.len()
    &&& forall|i: int|
        0 <= i < stack.len() && stack[i] is Named ==> (#[trigger] lists[i]).len() <= 1
}

/// `list` holds, in the order of `stack`, what a font collection answers
/// for its families.
pub open spec fn lists_stack(stack: Seq<FontFamily>, list: Seq<u64>) -> bool {
    exists|lists: Seq<Seq<u64>>| #[trigger] answers(stack, lists) && list == lists.flatten()
}

/// Under `id` the table holds a list of the families of `stack`.
pub open spec fn names_stack(stack: Seq<FontFamily>, table: Seq<Seq<u64>>, id: FontStackId) -> bool {
    &&& id.id < table.len()
    &&& lists_stack(stack, table[id.id as int])
}

/// `r` is what `property` resolves to at `scale`: for a font stack, the
/// identifier under which `table` holds a list of its families; for any
/// other property, see `resolved`.
pub open spec fn resolves_to(
    property: StyleProperty,
    scale: u64,
    table: Seq<Seq<u64>>,
    r: ResolvedProperty,
) -> bool {
    match property {
        StyleProperty::FontStack(stack) => match r {
            ResolvedProperty::FontStack(id) => names_stack(stack@, table, id),
            _ => false,
        },
        _ => r == resolved(property, scale),
    }
}

/// A list of the families of a stack of no family is empty.
pub proof fn lemma_lists_empty_stack(stack: Seq<FontFamily>, list: Seq<u64>)
    requires
        stack.len() == 0,
        lists_stack(stack, list),
    ensures
        list == Seq::<u64>::empty(),
{
    let lists = choose|lists: Seq<Seq<u64>>| #[trigger]
        answers(stack, lists) && list == lists.flatten();
    assert(lists.len() == 0);
}

/// What a table holds under an identifier, it holds under it once it has
/// grown.
pub proof fn lemma_names_stack_grows(
    stack: Seq<FontFamily>,
    table: Seq<Seq<u64>>,
    grown: Seq<Seq<u64>>,
    id: FontStackId,
)
    requires
        names_stack(stack, table, id),
        table.len() <= grown.len(),
        grown.take(table.len() as int) == table,
    ensures
        names_stack(stack, grown, id),
{
    assert(grown.take(table.len() as int)[id.id as int] == grown[id.id as int]);
}

/// The style that `style` resolves to at `scale`, with its font stack under
/// the identifier `font_stack`.
pub open spec fn resolved_style(style: TextStyle, scale: u64, font_stack: FontStackId) -> ResolvedStyle {
    ResolvedStyle {
        font_stack,
        font_size: scaled(style.font_size, scale),
        font_stretch: style.font_stretch,
        font_style: style.font_style,
        font_weight: style.font_weight,
        font_features: style.font_features,
        brush: style.brush,
        underline: ResolvedDecoration {
            enabled: style.has_underline,
            brush: style.underline_brush,
            offset: scaled_offset(style.underline_offset, scale),
            size: scaled(style.underline_size, scale),
        },
        strikethrough: ResolvedDecoration {
            enabled: style.has_strikethrough,
            brush: style.strikethrough_brush,
            offset: scaled_offset(style.strikethrough_offset, scale),
            size: scaled(style.strikethrough_size, scale),
        },
        line_height: style.line_height,
        word_spacing: scaled(style.word_spacing, scale),
        letter_spacing: scaled(style.letter_spacing, scale),
    }
}

/// Tells whether two lists of families are the same.
pub fn same_families(a: &Vec<u64>, b: &Vec<u64>) -> (r: bool)
    ensures
        r == (a@ == b@),
{
    if a.len() != b.len() {
        return false;
    }
    let mut i: usize = 0;
    while i < a.len()
        invariant
            i <= a@.len(),
            a@.len() == b@.len(),
            forall|k: int| 0 <= k < i ==> a@[k] == b@[k],
        decreases a@.len() - i,
    {
        if a[i] != b[i] {
            return false;
        }
        i += 1;
    }
    assert(a@ =~= b@);
    true
}

/// Context for resolving properties: the table in which every list of font
/// families that was resolved stands once, under its identifier.
pub struct ResolveContext {
    pub families: Vec<Vec<u64>>,
}

impl ResolveContext {
    /// The lists of families by their identifiers.
    pub open spec fn table(&self) -> Seq<Seq<u64>> {
        Seq::new(self.families@.len(), |i: int| self.families@[i]@)
    }

    /// No list stands in the table twice.
    pub open spec fn wf(&self) -> bool {
        forall|i: int, j: int|
            0 <= i < j < self.families@.len() ==> (#[trigger] self.families@[i])@ != (
            #[trigger] self.families@[j])@
    }

    /// Tells whether no list stands in the table twice; see `wf`.
    pub fn is_well_formed(&self) -> (r: bool)
        ensures
            r == self.wf(),
    {
        let mut j: usize = 0;
        while j < self.families.len()
            invariant
                j <= self.families@.len(),
                forall|a: int, b: int|
                    0 <= a < b < j ==> (#[trigger] self.families@[a])@ != (
                    #[trigger] self.families@[b])@,
            decreases self.families@.len() - j,
        {
            let mut i: usize = 0;
            while i < j
                invariant
                    i <= j < self.families@.len(),
                    forall|a: int| 0 <= a < i ==> (#[trigger] self.families@[a])@
                        != self.families@[j as int]@,
                decreases j - i,
            {
                if same_families(&self.families[i], &self.families[j]) {
                    return false;
                }
                i += 1;
            }
            j += 1;
        }
        true
    }

    /// A context whose table is empty.
    pub fn new() -> (r: ResolveContext)
        ensures
            r.wf(),
            r.table().len() == 0,
    {
        ResolveContext { families: Vec::new() }
    }

    /// The list of families under `id`, if there is one.
    pub fn stack(&self, id: FontStackId) -> (r: Option<&Vec<u64>>)
        ensures
            r.is_some() == (id.id < self.table().len()),
            r matches Some(list) ==> list@ == self.table()[id.id as int],
    {
        if id.id < self.families.len() {
            Some(&self.families[id.id])
        } else {
            None
        }
    }

    /// Gives the identifier of a list of families: that under which it
    /// stands in the table, or, for a list that is new to the table, the
    /// next one, under which it is entered.
    pub fn intern(&mut self, families: &Vec<u64>) -> (id: FontStackId)
        requires
            old(self).wf(),
        ensures
            final(self).wf(),
            id.id < final(self).table().len(),
            final(self).table()[id.id as int] == families@,
            final(self).table().take(old(self).table().len() as int) == old(self).table(),
            final(self).table().len() == old(self).table().len() + (if old(self).table().contains(
                families@,
            ) {
                0int
            } else {
                1int
            }),
    {
        let mut i: usize = 0;
        while i < self.families.len()
            invariant
                i <= self.families@.len(),
                self.families == old(self).families,
                self.wf(),
                forall|k: int| 0 <= k < i ==> (#[trigger] self.families@[k])@ != families@,
            decreases self.families@.len() - i,
        {
            if same_families(&self.families[i], families) {
                proof {
                    assert(self.table().take(self.table().len() as int) =~= self.table());
                    assert(self.table()[i as int] == families@);
                }
                return FontStackId { id: i };
            }
            i += 1;
        }
        let mut entry: Vec<u64> = Vec::new();
        let mut k: usize = 0;
        while k < families.len()
            invariant
                k <= families@.len(),
                entry@ == families@.take(k as int),
            decreases families@.len() - k,
        {
            entry.push(families[k]);
            proof {
                assert(entry@ =~= families@.take(k + 1));
            }
            k += 1;
        }
        proof {
            assert(families@.take(k as int) =~= families@);
            assert forall|j: int| 0 <= j < old(self).table().len() implies #[trigger] old(
                self,
            ).table()[j] != families@ by {
                assert(self.families@[j]@ != families@);
            }
        }
        let id = self.families.len();
        self.families.push(entry);
        proof {
            assert(self.table().take(old(self).table().len() as int) =~= old(self).table());
            assert forall|a: int, b: int| 0 <= a < b < self.families@.len() implies (
            #[trigger] self.families@[a])@ != (#[trigger] self.families@[b])@ by {
                assert(self.families@[a] == old(self).families@[a]);
                if b < id {
                    assert(self.families@[b] == old(self).families@[b]);
                }
            }
        }
        FontStackId { id }
    }

    /// Resolves a font stack: the families that the font collection knows
    /// are listed in the order of the stack, and the list is interned. Which
    /// families that are depends on the fonts at hand: a family that is named
    /// gives no identifier or one, a generic family any number.
    pub fn resolve_stack(&mut self, fcx: &mut FontContext, stack: &Vec<FontFamily>) -> (id:
        FontStackId)
        requires
            old(self).wf(),
        ensures
            final(self).wf(),
            names_stack(stack@, final(self).table(), id),
            stack@.len() == 0 ==> final(self).table()[id.id as int] == Seq::<u64>::empty(),
            final(self).table().take(old(self).table().len() as int) == old(self).table(),
            final(self).table().len() == old(self).table().len() + (if old(self).table().contains(
                final(self).table()[id.id as int],
            ) {
                0int
            } else {
                1int
            }),
    {
        let mut found: Vec<u64> = Vec::new();
        let ghost mut lists: Seq<Seq<u64>> = Seq::empty();
        let mut i: usize = 0;
        while i < stack.len()
            invariant
                i <= stack@.len(),
                answers(stack@.take(i as int), lists),
                found@ == lists.flatten(),
            decreases stack@.len() - i,
        {
            let ghost before = found@;
            match &stack[i] {
                FontFamily::Named(name) => {
                    match family_id(&mut fcx.collection, name.as_str()) {
                        Some(family) => found.push(family),
                        None => {},
                    }
                },
                FontFamily::Generic(family) => {
                    let mut families = generic_families(&mut fcx.collection, family);
                    found.append(&mut families);
                },
            }
            proof {
                let answer = found@.skip(before.len() as int);
                assert(found@ =~= before + answer);
                lists.lemma_flatten_push(answer);
                let longer = lists.push(answer);
                assert forall|k: int|
                    0 <= k < i + 1 && stack@.take(i + 1)[k] is Named implies (
                #[trigger] longer[k]).len() <= 1 by {
                    if k < i {
                        assert(stack@.take(i as int)[k] == stack@.take(i + 1)[k]);
                        assert(longer[k] == lists[k]);
                    }
                }
                lists = longer;
            }
            i += 1;
        }
        proof {
            assert(stack@.take(i as int) =~= stack@);
            if stack@.len() == 0 {
                assert(lists.len() == 0);
            }
        }
        self.intern(&found)
    }

    /// Resolves a property at `scale`. A font stack is resolved against the
    /// fonts at hand; see `resolve_stack`. Any other property leaves the
    /// context as it is.
    pub fn resolve_property(
        &mut self,
        fcx: &mut FontContext,
        property: &StyleProperty,
        scale: u64,
    ) -> (r: ResolvedProperty)
        requires
            old(self).wf(),
        ensures
            final(self).wf(),
            final(self).table().take(old(self).table().len() as int) == old(self).table(),
            old(self).table().len() <= final(self).table().len(),
            resolves_to(*property, scale, final(self).table(), r),
            !(*property is FontStack) ==> final(self).families == old(self).families,
    {
        proof {
            assert(self.table().take(self.table().len() as int) =~= self.table());
        }
        match property {
            StyleProperty::FontStack(stack) => ResolvedProperty::FontStack(
                self.resolve_stack(fcx, stack),
            ),
            StyleProperty::FontSize(v) => ResolvedProperty::FontSize(scale_by(*v, scale)),
            StyleProperty::FontStretch(v) => ResolvedProperty::FontStretch(*v),
            StyleProperty::FontStyle(v) => ResolvedProperty::FontStyle(*v),
            StyleProperty::FontWeight(v) => ResolvedProperty::FontWeight(*v),
            StyleProperty::FontFeatures(v) => ResolvedProperty::FontFeatures(*v),
            StyleProperty::Brush(v) => ResolvedProperty::Brush(*v),
            StyleProperty::Underline(v) => ResolvedProperty::Underline(*v),
            StyleProperty::UnderlineOffset(v) => ResolvedProperty::UnderlineOffset(
                scale_offset(*v, scale),
            ),
            StyleProperty::UnderlineSize(v) => ResolvedProperty::UnderlineSize(scale_by(*v, scale)),
            StyleProperty::UnderlineBrush(v) => ResolvedProperty::UnderlineBrush(*v),
            StyleProperty::Strikethrough(v) => ResolvedProperty::Strikethrough(*v),
            StyleProperty::StrikethroughOffset(v) => ResolvedProperty::StrikethroughOffset(
                scale_offset(*v, scale),
            ),
            StyleProperty::StrikethroughSize(v) => ResolvedProperty::StrikethroughSize(
                scale_by(*v, scale),
            ),
            StyleProperty::StrikethroughBrush(v) => ResolvedProperty::StrikethroughBrush(*v),
            StyleProperty::LineHeight(v) => ResolvedProperty::LineHeight(*v),
            StyleProperty::WordSpacing(v) => ResolvedProperty::WordSpacing(scale_by(*v, scale)),
            StyleProperty::LetterSpacing(v) => ResolvedProperty::LetterSpacing(scale_by(*v, scale)),
        }
    }

    /// Resolves a whole style at `scale`: every attribute as
    /// `resolve_property` resolves its property.
    pub fn resolve_entire_style_set(
        &mut self,
        fcx: &mut FontContext,
        style: &TextStyle,
        scale: u64,
    ) -> (r: ResolvedStyle)
        requires
            old(self).wf(),
        ensures
            final(self).wf(),
            final(self).table().take(old(self).table().len() as int) == old(self).table(),
            old(self).table().len() <= final(self).table().len(),
            names_stack(style.font_stack@, final(self).table(), r.font_stack),
            r == resolved_style(*style, scale, r.font_stack),
    {
        ResolvedStyle {
            font_stack: self.resolve_stack(fcx, &style.font_stack),
            font_size: scale_by(style.font_size, scale),
            font_stretch: style.font_stretch,
            font_style: style.font_style,
            font_weight: style.font_weight,
            font_features: style.font_features,
            brush: style.brush,
            underline: ResolvedDecoration {
                enabled: style.has_underline,
                brush: style.underline_brush,
                offset: scale_offset(style.underline_offset, scale),
                size: scale_by(style.underline_size, scale),
            },
            strikethrough: ResolvedDecoration {
                enabled: style.has_strikethrough,
                brush: style.strikethrough_brush,
                offset: scale_offset(style.strikethrough_offset, scale),
                size: scale_by(style.strikethrough_size, scale),
            },
            line_height: style.line_height,
            word_spacing: scale_by(style.word_spacing, scale),
            letter_spacing: scale_by(style.letter_spacing, scale),
        }
    }
}

} // verus!
