//! Hierarchical tree based style application.

use vstd::prelude::*;
use crate::span::Span;
use crate::resolve::{covers, is_cover, RangedStyle, ResolvedProperty, ResolvedStyle};

verus! {

/// A span of the tree: the style of what stands below it.
#[derive(Clone, Copy, Debug)]
pub struct StyleSpan {
    pub style: ResolvedStyle,
}

/// A run of text below a span.
#[derive(Clone, Copy, Debug)]
pub struct TextSpan {
    pub text_range: Span,
}

/// What a node of the style tree holds.
#[derive(Clone, Copy, Debug)]
pub enum StyleTreeNodeData {
    Span(StyleSpan),
    Text(TextSpan),
}

/// A node of the style tree. Its parent stands before it in the builder's
/// vector of nodes; only the root has none.
#[derive(Clone, Copy, Debug)]
pub struct StyleTreeNode {
    pub parent: Option<usize>,
    pub data: StyleTreeNodeData,
}

impl StyleTreeNodeData {
    pub open spec fn is_span(self) -> bool {
        self is Span
    }

    /// The span, if the node is one.
    pub fn as_span(&self) -> (r: Option<&StyleSpan>)
        ensures
            match *self {
                StyleTreeNodeData::Span(span) => r == Some(&span),
                StyleTreeNodeData::Text(_) => r.is_none(),
            },
    {
        match self {
            StyleTreeNodeData::Span(span) => Some(span),
            StyleTreeNodeData::Text(_) => None,
        }
    }
}

impl StyleTreeNode {
    /// The style of a span node.
    pub open spec fn style(self) -> ResolvedStyle {
        match self.data {
            StyleTreeNodeData::Span(span) => span.style,
            StyleTreeNodeData::Text(_) => arbitrary(),
        }
    }

    /// A span node of style `style` below `parent`.
    pub fn span(parent: Option<usize>, style: ResolvedStyle) -> (r: StyleTreeNode)
        ensures
            r == (StyleTreeNode { parent, data: StyleTreeNodeData::Span(StyleSpan { style }) }),
    {
        StyleTreeNode { parent, data: StyleTreeNodeData::Span(StyleSpan { style }) }
    }

    /// A text node for the bytes `text_range` below `parent`.
    pub fn text(parent: usize, text_range: Span) -> (r: StyleTreeNode)
        ensures
            r == (StyleTreeNode {
                parent: Some(parent),
                data: StyleTreeNodeData::Text(TextSpan { text_range }),
            }),
    {
        StyleTreeNode { parent: Some(parent), data: StyleTreeNodeData::Text(TextSpan { text_range }) }
    }
}

/// A span node of style `style` below node `parent`.
pub open spec fn span_below(parent: usize, style: ResolvedStyle) -> StyleTreeNode {
    StyleTreeNode { parent: Some(parent), data: StyleTreeNodeData::Span(StyleSpan { style }) }
}

/// A text node for the bytes `text_range` below node `parent`.
pub open spec fn text_below(parent: usize, text_range: Span) -> StyleTreeNode {
    StyleTreeNode { parent: Some(parent), data: StyleTreeNodeData::Text(TextSpan { text_range }) }
}

/// The node above node `i`, or `-1` for a node that has none.
pub open spec fn parent_of(tree: Seq<StyleTreeNode>, i: int) -> int {
    match tree[i].parent {
        Some(p) => p as int,
        None => -1,
    }
}

/// The styles of the spans from the root down to node `i`, the root first.
pub open spec fn open_path(tree: Seq<StyleTreeNode>, i: int) -> Seq<ResolvedStyle>
    decreases i,
{
    if 0 <= i < tree.len() {
        if 0 <= parent_of(tree, i) < i {
            open_path(tree, parent_of(tree, i)).push(tree[i].style())
        } else {
            seq![tree[i].style()]
        }
    } else {
        Seq::empty()
    }
}

/// Node `i` is the root, or hangs below a span that stands before it.
pub open spec fn node_wf(tree: Seq<StyleTreeNode>, i: int) -> bool {
    if i == 0 {
        tree[0].parent.is_none() && tree[0].data.is_span()
    } else {
        0 <= parent_of(tree, i) < i && tree[parent_of(tree, i)].data.is_span()
    }
}

/// The tree has a root, and every node of it is well formed.
pub open spec fn tree_wf(tree: Seq<StyleTreeNode>) -> bool {
    &&& tree.len() >= 1
    &&& forall|i: int| 0 <= i < tree.len() ==> #[trigger] node_wf(tree, i)
}

/// Nodes added behind node `i` leave the path down to it as it was.
pub proof fn lemma_open_path_push(tree: Seq<StyleTreeNode>, node: StyleTreeNode, i: int)
    requires
        0 <= i < tree.len(),
    ensures
        open_path(tree.push(node), i) == open_path(tree, i),
    decreases i,
{
    let longer = tree.push(node);
    assert(longer[i] == tree[i]);
    let p = parent_of(tree, i);
    if 0 <= p < i {
        lemma_open_path_push(tree, node, p);
    }
}

/// Builder for constructing a tree of styles.
///
/// Spans are opened and closed around runs of text. Whenever the open span
/// changes, the text pushed since the last change is emitted with the style
/// of the span that was open while it was pushed.
pub struct TreeStyleBuilder {
    pub tree: Vec<StyleTreeNode>,
    pub flatted_styles: Vec<RangedStyle>,
    pub current_span: usize,
    pub total_text_len: usize,
    pub text_last_pushed_at: usize,
}

impl TreeStyleBuilder {
    /// `begin` was called, and `finish` has not handed the builder back to
    /// its idle state.
    pub open spec fn is_begun(&self) -> bool {
        self.total_text_len != usize::MAX
    }

    /// The state of a builder between `begin` and `finish`.
    pub open spec fn wf(&self) -> bool {
        &&& self.is_begun()
        &&& tree_wf(self.tree@)
        &&& self.current_span < self.tree.len()
        &&& self.tree@[self.current_span as int].data.is_span()
        &&& self.text_last_pushed_at <= self.total_text_len
        &&& covers(self.flatted_styles@, self.text_last_pushed_at as int)
    }

    /// Tells whether the builder is in a state between `begin` and `finish`;
    /// see `wf`.
    pub fn is_well_formed(&self) -> (r: bool)
        ensures
            r == self.wf(),
    {
        if self.total_text_len == usize::MAX || self.tree.len() == 0 {
            return false;
        }
        let mut i: usize = 0;
        while i < self.tree.len()
            invariant
                i <= self.tree@.len(),
                forall|k: int| 0 <= k < i ==> #[trigger] node_wf(self.tree@, k),
            decreases self.tree@.len() - i,
        {
            let ok = match self.tree[i].parent {
                None => i == 0 && self.tree[0].data.as_span().is_some(),
                Some(p) => i != 0 && p < i && self.tree[p].data.as_span().is_some(),
            };
            if !ok {
                assert(!node_wf(self.tree@, i as int));
                return false;
            }
            i += 1;
        }
        self.current_span < self.tree.len() && self.tree[self.current_span].data.as_span().is_some()
            && self.text_last_pushed_at <= self.total_text_len && is_cover(
            &self.flatted_styles,
            self.text_last_pushed_at,
        )
    }

    /// The styles of the open spans, the root first, the current span last.
    pub open spec fn open_styles(&self) -> Seq<ResolvedStyle> {
        open_path(self.tree@, self.current_span as int)
    }

    /// The style of the current span.
    pub open spec fn spec_current_style(&self) -> ResolvedStyle {
        self.open_styles().last()
    }

    /// The ranged styles emitted so far, and behind them the text that was
    /// pushed since, under the current style.
    pub open spec fn flushed(&self) -> Seq<RangedStyle> {
        if self.total_text_len > self.text_last_pushed_at {
            self.flatted_styles@.push(
                RangedStyle {
                    style: self.spec_current_style(),
                    range: Span { start: self.text_last_pushed_at, end: self.total_text_len },
                },
            )
        } else {
            self.flatted_styles@
        }
    }

    /// The current style is that of the node of the current span.
    pub proof fn lemma_current_style(&self)
        requires
            self.wf(),
        ensures
            self.open_styles().len() >= 1,
            self.spec_current_style() == self.tree@[self.current_span as int].style(),
    {
    }

    /// Only the root is open exactly when the current span is the root.
    pub proof fn lemma_root_alone(&self)
        requires
            self.wf(),
        ensures
            self.open_styles().len() == 1 <==> self.current_span == 0,
    {
        let i = self.current_span as int;
        assert(node_wf(self.tree@, i));
        if i != 0 {
            let p = parent_of(self.tree@, i);
            assert(open_path(self.tree@, p).len() >= 1);
        }
    }

    /// The style of the current span.
    pub fn current_style(&self) -> (r: ResolvedStyle)
        requires
            self.wf(),
        ensures
            r == self.spec_current_style(),
    {
        proof {
            self.lemma_current_style();
        }
        self.tree[self.current_span].data.as_span().unwrap().style
    }

    /// Emits the text pushed since the last change of span, if there is any.
    fn flush(&mut self)
        requires
            old(self).wf(),
        ensures
            final(self).wf(),
            final(self).flatted_styles@ == old(self).flushed(),
            final(self).tree == old(self).tree,
            final(self).current_span == old(self).current_span,
            final(self).total_text_len == old(self).total_text_len,
            final(self).text_last_pushed_at == old(self).total_text_len,
    {
        if self.total_text_len > self.text_last_pushed_at {
            let range = Span { start: self.text_last_pushed_at, end: self.total_text_len };
            let style = self.current_style();
            self.flatted_styles.push(RangedStyle { style, range });
            self.text_last_pushed_at = self.total_text_len;
        }
    }

    /// Prepares the builder for a new text, whose root style is `root_style`.
    pub fn begin(&mut self, root_style: ResolvedStyle)
        ensures
            final(self).wf(),
            final(self).tree@ == seq![
                (StyleTreeNode {
                    parent: None,
                    data: StyleTreeNodeData::Span(StyleSpan { style: root_style }),
                }),
            ],
            final(self).current_span == 0,
            final(self).open_styles() == seq![root_style],
            final(self).flatted_styles@ == Seq::<RangedStyle>::empty(),
            final(self).total_text_len == 0,
            final(self).text_last_pushed_at == 0,
    {
        self.tree.clear();
        self.flatted_styles.clear();

        self.tree.push(StyleTreeNode::span(None, root_style));
        self.current_span = 0;
        self.total_text_len = 0;
        self.text_last_pushed_at = 0;
        proof {
            assert(node_wf(self.tree@, 0));
            assert(self.tree@ =~= seq![
                (StyleTreeNode {
                    parent: None,
                    data: StyleTreeNodeData::Span(StyleSpan { style: root_style }),
                }),
            ]);
        }
    }

    /// Opens a span of style `style` below the current one.
    fn open_span(&mut self, style: ResolvedStyle)
        requires
            old(self).wf(),
        ensures
            final(self).wf(),
            final(self).tree@ == old(self).tree@.push(span_below(old(self).current_span, style)),
            final(self).current_span == old(self).tree@.len(),
            final(self).open_styles() == old(self).open_styles().push(style),
            final(self).flatted_styles == old(self).flatted_styles,
            final(self).total_text_len == old(self).total_text_len,
            final(self).text_last_pushed_at == old(self).text_last_pushed_at,
    {
        let ghost before = self.tree@;
        let node = StyleTreeNode::span(Some(self.current_span), style);
        self.tree.push(node);
        self.current_span = self.tree.len() - 1;
        proof {
            let parent = old(self).current_span as int;
            lemma_open_path_push(before, node, parent);
            assert forall|i: int| 0 <= i < self.tree@.len() implies #[trigger] node_wf(
                self.tree@,
                i,
            ) by {
                if i < before.len() {
                    assert(node_wf(before, i));
                }
            }
        }
    }

    /// Opens a span whose style is `style`, whatever the current style is.
    pub fn push_style_span(&mut self, style: ResolvedStyle)
        requires
            old(self).wf(),
        ensures
            final(self).wf(),
            final(self).tree@ == old(self).tree@.push(span_below(old(self).current_span, style)),
            final(self).current_span == old(self).tree@.len(),
            final(self).open_styles() == old(self).open_styles().push(style),
            final(self).flatted_styles@ == old(self).flushed(),
            final(self).total_text_len == old(self).total_text_len,
            final(self).text_last_pushed_at == old(self).total_text_len,
    {
        self.flush();
        self.open_span(style);
    }

    /// Opens a span whose style is the current style with `properties`
    /// applied to it in turn.
    pub fn push_style_modification_span(&mut self, properties: &[ResolvedProperty])
        requires
            old(self).wf(),
        ensures
            final(self).wf(),
            final(self).tree@ == old(self).tree@.push(
                span_below(
                    old(self).current_span,
                    old(self).spec_current_style().with_all(properties@, properties@.len()),
                ),
            ),
            final(self).current_span == old(self).tree@.len(),
            final(self).open_styles() == old(self).open_styles().push(
                old(self).spec_current_style().with_all(properties@, properties@.len()),
            ),
            final(self).flatted_styles@ == old(self).flushed(),
            final(self).total_text_len == old(self).total_text_len,
            final(self).text_last_pushed_at == old(self).total_text_len,
    {
        let mut new_style = self.current_style();
        let mut i: usize = 0;
        while i < properties.len()
            invariant
                i <= properties@.len(),
                new_style == self.spec_current_style().with_all(properties@, i as nat),
            decreases properties@.len() - i,
        {
            new_style.apply(properties[i]);
            i += 1;
        }

        self.flush();
        self.open_span(new_style);
    }

    /// Closes the current span: its parent is the current span again.
    pub fn pop_style_span(&mut self)
        requires
            old(self).wf(),
            old(self).open_styles().len() > 1,
        ensures
            final(self).wf(),
            final(self).open_styles() == old(self).open_styles().drop_last(),
            final(self).flatted_styles@ == old(self).flushed(),
            final(self).total_text_len == old(self).total_text_len,
            final(self).text_last_pushed_at == old(self).total_text_len,
            final(self).tree == old(self).tree,
            final(self).current_span == parent_of(old(self).tree@, old(self).current_span as int),
            final(self).current_span < old(self).current_span,
    {
        proof {
            self.lemma_root_alone();
            assert(node_wf(self.tree@, self.current_span as int));
        }
        self.flush();
        let ghost path = self.open_styles();
        self.current_span = self.tree[self.current_span].parent.unwrap();
        proof {
            assert(path.drop_last() =~= self.open_styles());
        }
    }

    /// Adds `len` bytes of text to the current span.
    pub fn push_text(&mut self, len: usize)
        requires
            old(self).wf(),
            old(self).total_text_len + len < usize::MAX,
        ensures
            final(self).wf(),
            len == 0 ==> *final(self) == *old(self),
            len != 0 ==> final(self).tree@ == old(self).tree@.push(
                text_below(
                    old(self).current_span,
                    Span {
                        start: old(self).total_text_len,
                        end: (old(self).total_text_len + len) as usize,
                    },
                ),
            ),
            final(self).current_span == old(self).current_span,
            final(self).open_styles() == old(self).open_styles(),
            final(self).spec_current_style() == old(self).spec_current_style(),
            final(self).flatted_styles == old(self).flatted_styles,
            final(self).total_text_len == old(self).total_text_len + len,
            final(self).text_last_pushed_at == old(self).text_last_pushed_at,
    {
        if len == 0 {
            return ;
        }
        let start = self.total_text_len;
        let end = self.total_text_len + len;

        let ghost before = self.tree@;
        let node = StyleTreeNode::text(self.current_span, Span { start, end });
        self.tree.push(node);
        self.total_text_len = end;
        proof {
            lemma_open_path_push(before, node, self.current_span as int);
            assert forall|i: int| 0 <= i < self.tree@.len() implies #[trigger] node_wf(
                self.tree@,
                i,
            ) by {
                if i < before.len() {
                    assert(node_wf(before, i));
                }
            }
        }
    }

    /// Closes every span but the root and writes the sequence of ranged
    /// styles to `styles`. On a builder that was never begun, `styles` stays
    /// as it is.
    pub fn finish(&mut self, styles: &mut Vec<RangedStyle>)
        requires
            old(self).is_begun() ==> old(self).wf(),
        ensures
            old(self).is_begun() ==> {
                &&& final(self).wf()
                &&& final(styles)@ == old(self).flushed()
                &&& covers(final(styles)@, old(self).total_text_len as int)
                &&& final(self).flatted_styles@ == final(styles)@
                &&& final(self).tree == old(self).tree
                &&& final(self).current_span == 0
                &&& final(self).open_styles() == old(self).open_styles().take(1)
                &&& final(self).total_text_len == old(self).total_text_len
                &&& final(self).text_last_pushed_at == old(self).total_text_len
            },
            !old(self).is_begun() ==> {
                &&& !final(self).is_begun()
                &&& final(styles)@ == old(styles)@
                &&& final(self).tree@.len() == 0
                &&& final(self).current_span == usize::MAX
                &&& final(self).flatted_styles == old(self).flatted_styles
                &&& final(self).text_last_pushed_at == old(self).text_last_pushed_at
            },
    {
        if self.total_text_len == usize::MAX {
            self.current_span = usize::MAX;
            self.tree.clear();
            return ;
        }
        proof {
            self.lemma_root_alone();
        }
        self.flush();
        while self.tree[self.current_span].parent.is_some()
            invariant
                self.wf(),
                self.tree == old(self).tree,
                self.flatted_styles@ == old(self).flushed(),
                self.total_text_len == old(self).total_text_len,
                self.text_last_pushed_at == old(self).total_text_len,
                self.open_styles().len() >= 1,
                self.open_styles().take(1) == old(self).open_styles().take(1),
            decreases self.current_span,
        {
            proof {
                self.lemma_root_alone();
                assert(node_wf(self.tree@, self.current_span as int));
                assert(self.open_styles().drop_last().take(1) =~= self.open_styles().take(1));
            }
            self.pop_style_span();
        }
        proof {
            assert(node_wf(self.tree@, self.current_span as int));
            assert(self.open_styles().take(1) =~= self.open_styles());
        }

        styles.clear();
        let mut i: usize = 0;
        while i < self.flatted_styles.len()
            invariant
                i <= self.flatted_styles@.len(),
                self.tree == old(self).tree,
                self.current_span == 0,
                styles@ == self.flatted_styles@.take(i as int),
            decreases self.flatted_styles@.len() - i,
        {
            styles.push(self.flatted_styles[i]);
            proof {
                assert(styles@ =~= self.flatted_styles@.take(i + 1));
            }
            i += 1;
        }
        proof {
            assert(self.flatted_styles@.take(i as int) =~= self.flatted_styles@);
        }
    }
}

impl Default for TreeStyleBuilder {
    /// A builder that is not begun.
    fn default() -> (r: Self)
        ensures
            !r.is_begun(),
            r.tree@.len() == 0,
            r.flatted_styles@.len() == 0,
            r.current_span == usize::MAX,
            r.text_last_pushed_at == 0,
    {
        TreeStyleBuilder {
            tree: Vec::new(),
            flatted_styles: Vec::new(),
            current_span: usize::MAX,
            total_text_len: usize::MAX,
            text_last_pushed_at: 0,
        }
    }
}

} // verus!
