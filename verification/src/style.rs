//! Rich styling: the properties of text as a caller gives them.

use vstd::prelude::*;
use crate::resolve::{Brush, FontFeaturesId, FontStyle};

verus! {

/// A font family, by its name or by its kind.
pub enum FontFamily {
    Named(String),
    Generic(fontique::GenericFamily),
}

/// One attribute of a style as a caller gives it: sizes and spacings are in
/// units that are yet to be scaled, and the fonts are an ordered list of
/// families of which the first that is at hand is wanted.
pub enum StyleProperty {
    FontStack(Vec<FontFamily>),
    FontSize(u64),
    FontStretch(u64),
    FontStyle(FontStyle),
    FontWeight(u64),
    FontFeatures(FontFeaturesId),
    Brush(Brush),
    Underline(bool),
    UnderlineOffset(i64),
    UnderlineSize(u64),
    UnderlineBrush(Option<Brush>),
    Strikethrough(bool),
    StrikethroughOffset(i64),
    StrikethroughSize(u64),
    StrikethroughBrush(Option<Brush>),
    LineHeight(u64),
    WordSpacing(u64),
    LetterSpacing(u64),
}

/// A complete style as a caller gives it.
pub struct TextStyle {
    pub font_stack: Vec<FontFamily>,
    pub font_size: u64,
    pub font_stretch: u64,
    pub font_style: FontStyle,
    pub font_weight: u64,
    pub font_features: FontFeaturesId,
    pub brush: Brush,
    pub has_underline: bool,
    pub underline_offset: i64,
    pub underline_size: u64,
    pub underline_brush: Option<Brush>,
    pub has_strikethrough: bool,
    pub strikethrough_offset: i64,
    pub strikethrough_size: u64,
    pub strikethrough_brush: Option<Brush>,
    pub line_height: u64,
    pub word_spacing: u64,
    pub letter_spacing: u64,
}

} // verus!
