//! Context for layout: what is kept from one paragraph to the next.

use vstd::prelude::*;
use crate::layout::InlineBox;
use crate::resolve::range::RangedStyleBuilder;
use crate::resolve::tree::TreeStyleBuilder;
use crate::resolve::{RangedStyle, ResolveContext};

verus! {

/// Shared scratch space used when constructing text layouts.
pub struct LayoutContext {
    pub rcx: ResolveContext,
    /// The ranged styles of the paragraph, once they are flattened.
    pub styles: Vec<RangedStyle>,
    pub inline_boxes: Vec<InlineBox>,
    pub ranged_style_builder: RangedStyleBuilder,
    pub tree_style_builder: TreeStyleBuilder,
    /// For every character of the text, the index of the style that governs it.
    pub style_indices: Vec<u16>,
}

impl LayoutContext {
    /// A context that has seen no paragraph.
    pub fn new() -> (r: LayoutContext)
        ensures
            r.rcx.wf(),
            r.rcx.table().len() == 0,
            r.styles@.len() == 0,
            r.inline_boxes@.len() == 0,
            r.style_indices@.len() == 0,
            !r.ranged_style_builder.is_begun(),
            !r.tree_style_builder.is_begun(),
    {
        LayoutContext {
            rcx: ResolveContext::new(),
            styles: Vec::new(),
            inline_boxes: Vec::new(),
            ranged_style_builder: RangedStyleBuilder::default(),
            tree_style_builder: TreeStyleBuilder::default(),
            style_indices: Vec::new(),
        }
    }

    /// Empties the context for a new paragraph. The table of font stacks is
    /// kept.
    pub fn begin(&mut self)
        ensures
            final(self).rcx == old(self).rcx,
            final(self).ranged_style_builder == old(self).ranged_style_builder,
            final(self).tree_style_builder == old(self).tree_style_builder,
            final(self).styles@.len() == 0,
            final(self).inline_boxes@.len() == 0,
            final(self).style_indices@.len() == 0,
    {
        self.styles.clear();
        self.inline_boxes.clear();
        self.style_indices.clear();
    }
}

} // verus!
