//! The data of a laid-out paragraph.

pub mod line;

use vstd::prelude::*;
use crate::resolve::Brush;
use crate::span::Span;
use crate::units::plus;

verus! {

/// Where a line is placed within the width that it was broken for.
#[derive(Clone, Copy, Debug, PartialEq, Eq, Structural)]
pub enum Alignment {
    Start,
    Middle,
    End,
    Justified,
}

/// Why a line ended.
#[derive(Clone, Copy, Debug, PartialEq, Eq, Structural)]
pub enum BreakReason {
    /// The text ended.
    NoBreak,
    /// A soft wrap, or a space that hangs over the end of the line.
    Regular,
    /// A mandatory break.
    Explicit,
    /// No break opportunity was at hand.
    Emergency,
}

/// What text analysis says of breaking before a cluster.
#[derive(Clone, Copy, Debug, PartialEq, Eq, Structural)]
pub enum Boundary {
    NoBoundary,
    Word,
    Line,
    Mandatory,
}

/// What kind of whitespace a cluster is.
#[derive(Clone, Copy, Debug, PartialEq, Eq, Structural)]
pub enum Whitespace {
    NotWhitespace,
    Space,
    NoBreakSpace,
    Tab,
    Newline,
}

impl Whitespace {
    pub open spec fn spec_is_space_or_nbsp(self) -> bool {
        self == Whitespace::Space || self == Whitespace::NoBreakSpace
    }

    #[verifier::when_used_as_spec(spec_is_space_or_nbsp)]
    pub fn is_space_or_nbsp(self) -> (r: bool)
        ensures
            r == self.spec_is_space_or_nbsp(),
    {
        match self {
            Whitespace::Space => true,
            Whitespace::NoBreakSpace => true,
            _ => false,
        }
    }
}

/// What text analysis says of a cluster.
#[derive(Clone, Copy, Debug, PartialEq, Eq, Structural)]
pub struct ClusterInfo {
    pub boundary: Boundary,
    pub whitespace: Whitespace,
}

impl ClusterInfo {
    pub open spec fn spec_is_whitespace(self) -> bool {
        self.whitespace != Whitespace::NotWhitespace
    }

    #[verifier::when_used_as_spec(spec_is_whitespace)]
    pub fn is_whitespace(self) -> (r: bool)
        ensures
            r == self.spec_is_whitespace(),
    {
        match self.whitespace {
            Whitespace::NotWhitespace => false,
            _ => true,
        }
    }
}

/// A shaped unit, mostly one grapheme.
#[derive(Clone, Copy, Debug, PartialEq, Eq, Structural)]
pub struct ClusterData {
    pub info: ClusterInfo,
    pub is_ligature_start: bool,
    pub is_ligature_continuation: bool,
    /// The style that governs the cluster, as an index into the layout's styles.
    pub style_index: u16,
    pub text_range: Span,
    pub advance: u64,
}

/// The vertical metrics of a font at a size.
#[derive(Clone, Copy, Debug, PartialEq, Eq, Structural)]
pub struct RunMetrics {
    pub ascent: u64,
    pub descent: u64,
    pub leading: u64,
}

/// A maximal sequence of clusters that share style, font and bidi level.
#[derive(Clone, Copy, Debug, PartialEq, Eq, Structural)]
pub struct RunData {
    pub cluster_range: Span,
    pub text_range: Span,
    pub bidi_level: u8,
    pub metrics: RunMetrics,
}

/// What a line item is.
#[derive(Clone, Copy, Debug, PartialEq, Eq, Structural)]
pub enum LayoutItemKind {
    TextRun,
    InlineBox,
}

/// The part of a run that lies on one line.
#[derive(Clone, Copy, Debug, PartialEq, Eq, Structural)]
pub struct LineItemData {
    pub kind: LayoutItemKind,
    /// The run, as an index into the layout's runs.
    pub index: usize,
    pub bidi_level: u8,
    pub cluster_range: Span,
    pub text_range: Span,
    pub advance: u64,
    pub is_whitespace: bool,
    pub has_trailing_whitespace: bool,
}

/// The metrics of a line. Those but the advance are set when the line is
/// finished.
#[derive(Clone, Copy, Debug, PartialEq, Eq, Structural)]
pub struct LineMetrics {
    pub advance: u64,
    pub trailing_whitespace: u64,
    pub ascent: u64,
    pub descent: u64,
    pub leading: u64,
    /// The horizontal shift that alignment gave the line.
    pub offset: u64,
    pub baseline: u64,
}

impl LineMetrics {
    pub open spec fn spec_size(&self) -> u64 {
        plus(plus(self.ascent, self.descent), self.leading)
    }

    /// The height of the line.
    #[verifier::when_used_as_spec(spec_size)]
    pub fn size(&self) -> (r: u64)
        ensures
            r == self.spec_size(),
    {
        self.ascent.saturating_add(self.descent).saturating_add(self.leading)
    }

    pub open spec fn zero() -> LineMetrics {
        LineMetrics {
            advance: 0,
            trailing_whitespace: 0,
            ascent: 0,
            descent: 0,
            leading: 0,
            offset: 0,
            baseline: 0,
        }
    }
}

/// A line of a layout.
#[derive(Clone, Copy, Debug, PartialEq, Eq, Structural)]
pub struct LineData {
    /// The line's items, as a range of the layout's line items.
    pub run_range: Span,
    pub max_advance: u64,
    pub alignment: Alignment,
    pub break_reason: BreakReason,
    /// The spaces that justification widens.
    pub num_spaces: usize,
    pub text_range: Span,
    pub metrics: LineMetrics,
}

impl LineData {
    pub open spec fn spec_size(&self) -> u64 {
        self.metrics.spec_size()
    }

    #[verifier::when_used_as_spec(spec_size)]
    pub fn size(&self) -> (r: u64)
        ensures
            r == self.spec_size(),
    {
        self.metrics.size()
    }
}

/// An underline or strikethrough as it is painted.
#[derive(Clone, Copy, Debug, PartialEq, Eq, Structural)]
pub struct Decoration {
    pub brush: Brush,
    pub offset: i64,
    pub size: u64,
}

/// The part of a resolved style that outlives shaping.
#[derive(Clone, Copy, Debug, PartialEq, Eq, Structural)]
pub struct Style {
    pub brush: Brush,
    pub underline: Option<Decoration>,
    pub strikethrough: Option<Decoration>,
    pub line_height: u64,
}

/// A box that is laid out in line with the text, before the byte `index`.
#[derive(Clone, Copy, Debug, PartialEq, Eq, Structural)]
pub struct InlineBox {
    pub id: u64,
    pub index: usize,
    pub width: u64,
    pub height: u64,
}

/// A paragraph as it is laid out: the shaped text, and the lines that it is
/// broken into.
pub struct LayoutData {
    pub scale: u64,
    pub has_bidi: bool,
    pub base_level: u8,
    pub text_len: usize,
    pub width: u64,
    pub full_width: u64,
    pub height: u64,
    pub styles: Vec<Style>,
    pub inline_boxes: Vec<InlineBox>,
    pub runs: Vec<RunData>,
    pub clusters: Vec<ClusterData>,
    pub lines: Vec<LineData>,
    pub line_items: Vec<LineItemData>,
}

/// The cluster ranges of `runs` follow one another without a gap and cover
/// the clusters `[0, cluster_count)`. A run may be empty.
pub open spec fn runs_cover(runs: Seq<RunData>, cluster_count: int) -> bool {
    &&& runs.len() >= 1
    &&& runs[0].cluster_range.start == 0
    &&& runs[runs.len() - 1].cluster_range.end == cluster_count
    &&& forall|i: int|
        0 <= i < runs.len() ==> (#[trigger] runs[i]).cluster_range.start
            <= runs[i].cluster_range.end
    &&& forall|i: int, j: int|
        0 <= i && j == i + 1 && j < runs.len() ==> (#[trigger] runs[i]).cluster_range.end == (
        #[trigger] runs[j]).cluster_range.start
}

/// Runs stand in the order of their clusters, and within the clusters.
pub proof fn lemma_runs_ordered(runs: Seq<RunData>, cluster_count: int, i: int, j: int)
    requires
        runs_cover(runs, cluster_count),
        0 <= i <= j < runs.len(),
    ensures
        0 <= runs[i].cluster_range.start <= runs[i].cluster_range.end,
        runs[i].cluster_range.start <= runs[j].cluster_range.start,
        runs[i].cluster_range.end <= runs[j].cluster_range.end,
        i < j ==> runs[i].cluster_range.end <= runs[j].cluster_range.start,
        runs[j].cluster_range.end <= cluster_count,
    decreases j - i,
{
    lemma_run_in_bounds(runs, cluster_count, j);
    if i < j {
        lemma_runs_ordered(runs, cluster_count, i + 1, j);
        assert(runs[i].cluster_range.end == runs[i + 1].cluster_range.start);
    }
}

proof fn lemma_run_in_bounds(runs: Seq<RunData>, cluster_count: int, j: int)
    requires
        runs_cover(runs, cluster_count),
        0 <= j < runs.len(),
    ensures
        runs[j].cluster_range.end <= cluster_count,
    decreases runs.len() - j,
{
    if j + 1 < runs.len() {
        lemma_run_in_bounds(runs, cluster_count, j + 1);
        assert(runs[j].cluster_range.end == runs[j + 1].cluster_range.start);
    }
}

impl LayoutData {
    /// Line `k` lies within the line items, and line item `k` within the
    /// clusters and runs.
    pub open spec fn lines_in_bounds(&self) -> bool {
        &&& forall|k: int|
            0 <= k < self.lines@.len() ==> (#[trigger] self.lines@[k]).run_range.start
                <= self.lines@[k].run_range.end <= self.line_items@.len()
        &&& forall|k: int|
            0 <= k < self.line_items@.len() ==> {
                &&& (#[trigger] self.line_items@[k]).cluster_range.start
                    <= self.line_items@[k].cluster_range.end <= self.clusters@.len()
                &&& self.line_items@[k].index < self.runs@.len()
            }
    }

    /// What holds of a layout once it is shaped: there is a run, the runs
    /// cover the clusters, every cluster names a style of the layout, a
    /// layout of no text has no clusters, and the lines of an earlier break
    /// pass, if any are left, lie within the layout.
    pub open spec fn wf(&self) -> bool {
        &&& runs_cover(self.runs@, self.clusters@.len() as int)
        &&& self.clusters@.len() < usize::MAX
        &&& forall|i: int|
            0 <= i < self.clusters@.len() ==> (#[trigger] self.clusters@[i]).style_index
                < self.styles@.len()
        &&& self.text_len == 0 ==> self.clusters@.len() == 0
        &&& self.lines_in_bounds()
    }
}

impl LayoutData {
    /// A layout of nothing, at scale 1.
    pub fn new() -> (r: LayoutData)
        ensures
            r.is_clear(),
    {
        LayoutData {
            scale: crate::units::ONE,
            has_bidi: false,
            base_level: 0,
            text_len: 0,
            width: 0,
            full_width: 0,
            height: 0,
            styles: Vec::new(),
            inline_boxes: Vec::new(),
            runs: Vec::new(),
            clusters: Vec::new(),
            lines: Vec::new(),
            line_items: Vec::new(),
        }
    }

    /// The layout holds nothing, at scale 1.
    pub open spec fn is_clear(&self) -> bool {
        &&& self.scale == crate::units::ONE
        &&& !self.has_bidi
        &&& self.base_level == 0
        &&& self.text_len == 0
        &&& self.width == 0
        &&& self.full_width == 0
        &&& self.height == 0
        &&& self.styles@.len() == 0
        &&& self.inline_boxes@.len() == 0
        &&& self.runs@.len() == 0
        &&& self.clusters@.len() == 0
        &&& self.lines@.len() == 0
        &&& self.line_items@.len() == 0
    }

    /// Empties the layout for a new paragraph.
    pub fn clear(&mut self)
        ensures
            final(self).is_clear(),
    {
        self.scale = crate::units::ONE;
        self.has_bidi = false;
        self.base_level = 0;
        self.text_len = 0;
        self.width = 0;
        self.full_width = 0;
        self.height = 0;
        self.styles.clear();
        self.inline_boxes.clear();
        self.runs.clear();
        self.clusters.clear();
        self.lines.clear();
        self.line_items.clear();
    }

    /// Tells whether the runs cover the clusters; see `runs_cover`.
    pub fn has_covering_runs(&self) -> (r: bool)
        ensures
            r == runs_cover(self.runs@, self.clusters@.len() as int),
    {
        let count = self.runs.len();
        if count == 0 {
            return false;
        }
        if self.runs[0].cluster_range.start != 0 {
            return false;
        }
        if self.runs[count - 1].cluster_range.end != self.clusters.len() {
            return false;
        }
        let mut i: usize = 0;
        while i < count
            invariant
                i <= count,
                count == self.runs@.len(),
                forall|k: int|
                    0 <= k < i ==> (#[trigger] self.runs@[k]).cluster_range.start
                        <= self.runs@[k].cluster_range.end,
                forall|j: int, k: int|
                    0 <= j && k == j + 1 && k < count && j < i ==> (
                    #[trigger] self.runs@[j]).cluster_range.end == (
                    #[trigger] self.runs@[k]).cluster_range.start,
            decreases count - i,
        {
            let range = self.runs[i].cluster_range;
            if range.start > range.end {
                return false;
            }
            if i + 1 < count && range.end != self.runs[i + 1].cluster_range.start {
                return false;
            }
            i += 1;
        }
        true
    }

    /// Tells whether every cluster names a style of the layout.
    pub fn has_styled_clusters(&self) -> (r: bool)
        ensures
            r == (forall|i: int|
                0 <= i < self.clusters@.len() ==> (#[trigger] self.clusters@[i]).style_index
                    < self.styles@.len()),
    {
        let mut i: usize = 0;
        while i < self.clusters.len()
            invariant
                i <= self.clusters@.len(),
                forall|k: int|
                    0 <= k < i ==> (#[trigger] self.clusters@[k]).style_index < self.styles@.len(),
            decreases self.clusters@.len() - i,
        {
            if self.clusters[i].style_index as usize >= self.styles.len() {
                return false;
            }
            i += 1;
        }
        true
    }

    /// Tells whether lines and line items lie within the layout; see
    /// `lines_in_bounds`.
    pub fn has_lines_in_bounds(&self) -> (r: bool)
        ensures
            r == self.lines_in_bounds(),
    {
        let mut i: usize = 0;
        while i < self.lines.len()
            invariant
                i <= self.lines@.len(),
                forall|k: int|
                    0 <= k < i ==> (#[trigger] self.lines@[k]).run_range.start
                        <= self.lines@[k].run_range.end <= self.line_items@.len(),
            decreases self.lines@.len() - i,
        {
            let range = self.lines[i].run_range;
            if range.start > range.end || range.end > self.line_items.len() {
                return false;
            }
            i += 1;
        }
        let mut j: usize = 0;
        while j < self.line_items.len()
            invariant
                j <= self.line_items@.len(),
                forall|k: int|
                    0 <= k < self.lines@.len() ==> (#[trigger] self.lines@[k]).run_range.start
                        <= self.lines@[k].run_range.end <= self.line_items@.len(),
                forall|k: int|
                    0 <= k < j ==> {
                        &&& (#[trigger] self.line_items@[k]).cluster_range.start
                            <= self.line_items@[k].cluster_range.end <= self.clusters@.len()
                        &&& self.line_items@[k].index < self.runs@.len()
                    },
            decreases self.line_items@.len() - j,
        {
            let item = &self.line_items[j];
            if item.cluster_range.start > item.cluster_range.end || item.cluster_range.end
                > self.clusters.len() || item.index >= self.runs.len() {
                return false;
            }
            j += 1;
        }
        true
    }

    /// Tells whether the layout is as a shaped layout must be for its lines
    /// to be broken; see `wf`.
    pub fn is_well_formed(&self) -> (r: bool)
        ensures
            r == self.wf(),
    {
        self.has_covering_runs() && self.clusters.len() < usize::MAX
            && self.has_styled_clusters() && (self.text_len != 0 || self.clusters.len() == 0)
            && self.has_lines_in_bounds()
    }
}

} // verus!
