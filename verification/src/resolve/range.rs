//! Range based style application.

use vstd::prelude::*;
use crate::resolve::{covers, RangedStyle, ResolvedProperty, ResolvedStyle};
use crate::span::Span;

verus! {

/// A property and the bytes of the text that it is applied to.
#[derive(Clone, Copy, Debug, PartialEq, Eq, Structural)]
pub struct RangedProperty {
    pub property: ResolvedProperty,
    pub range: Span,
}

/// The style of the byte `byte` once the first `n` of `properties` are
/// applied over `default_style`, each to the bytes of its range: a later one
/// wins over an earlier one.
pub open spec fn style_at(
    default_style: ResolvedStyle,
    properties: Seq<RangedProperty>,
    n: nat,
    byte: int,
) -> ResolvedStyle
    decreases n,
{
    if n == 0 {
        default_style
    } else {
        let below = style_at(default_style, properties, (n - 1) as nat, byte);
        if properties[n - 1].range.contains(byte) {
            below.with(properties[n - 1].property)
        } else {
            below
        }
    }
}

/// Every byte of every range has the style that `styles` gives its range.
pub open spec fn styled_as(
    styles: Seq<RangedStyle>,
    default_style: ResolvedStyle,
    properties: Seq<RangedProperty>,
    n: nat,
) -> bool {
    forall|k: int, byte: int|
        0 <= k < styles.len() && (#[trigger] styles[k]).range.contains(byte) ==> styles[k].style
            == #[trigger] style_at(default_style, properties, n, byte)
}

/// No two neighbours have the same style.
pub open spec fn neighbours_differ(styles: Seq<RangedStyle>) -> bool {
    forall|j: int, k: int|
        0 <= j && k == j + 1 && k < styles.len() ==> (#[trigger] styles[j]).style != (
        #[trigger] styles[k]).style
}

/// Builder for constructing an ordered sequence of non-overlapping ranges
/// of styles from properties that are pushed over ranges of the text.
pub struct RangedStyleBuilder {
    pub properties: Vec<RangedProperty>,
    pub default_style: ResolvedStyle,
    pub len: usize,
}

/// Applies `property` to the bytes of `styles` that lie in `range`: the
/// ranges that `range` cuts are split.
fn overlay(
    styles: &Vec<RangedStyle>,
    property: RangedProperty,
    len: usize,
    Ghost(default_style): Ghost<ResolvedStyle>,
    Ghost(properties): Ghost<Seq<RangedProperty>>,
    Ghost(n): Ghost<nat>,
) -> (r: Vec<RangedStyle>)
    requires
        covers(styles@, len as int),
        styled_as(styles@, default_style, properties, n),
        n < properties.len(),
        properties[n as int] == property,
    ensures
        covers(r@, len as int),
        styled_as(r@, default_style, properties, n + 1),
{
    let mut out: Vec<RangedStyle> = Vec::new();
    let start = property.range.start;
    let end = property.range.end;
    let mut i: usize = 0;
    while i < styles.len()
        invariant
            i <= styles@.len(),
            start == property.range.start,
            end == property.range.end,
            covers(styles@, len as int),
            styled_as(styles@, default_style, properties, n),
            n < properties.len(),
            properties[n as int] == property,
            covers(
                out@,
                if i < styles@.len() {
                    styles@[i as int].range.start as int
                } else {
                    len as int
                },
            ),
            styled_as(out@, default_style, properties, n + 1),
        decreases styles@.len() - i,
    {
        let segment = styles[i];
        let a = segment.range.start;
        let b = segment.range.end;
        let ghost before = out@;
        proof {
            if i + 1 < styles@.len() {
                assert(styles@[i as int].range.end == styles@[i + 1].range.start);
            }
        }
        // The part before the property's range.
        let head_end = if start < b {
            if start > a {
                start
            } else {
                a
            }
        } else {
            b
        };
        // The part within it.
        let body_end = if end < b {
            if end > head_end {
                end
            } else {
                head_end
            }
        } else {
            b
        };
        let mut changed = segment.style;
        changed.apply(property.property);
        if a < head_end {
            let part = RangedStyle { style: segment.style, range: Span { start: a, end: head_end } };
            proof {
                lemma_covers_push(out@, part);
                assert forall|byte: int| part.range.contains(byte) implies part.style
                    == #[trigger] style_at(default_style, properties, n + 1, byte) by {
                    assert(styles@[i as int].range.contains(byte));
                    assert(segment.style == style_at(default_style, properties, n, byte));
                    assert(((n + 1) - 1) as nat == n);
                }
                lemma_styled_push(out@, part, default_style, properties, n + 1);
            }
            out.push(part);
        }
        if head_end < body_end {
            let part = RangedStyle { style: changed, range: Span { start: head_end, end: body_end } };
            proof {
                lemma_covers_push(out@, part);
                assert forall|byte: int| part.range.contains(byte) implies part.style
                    == #[trigger] style_at(default_style, properties, n + 1, byte) by {
                    assert(styles@[i as int].range.contains(byte));
                    assert(segment.style == style_at(default_style, properties, n, byte));
                    assert(((n + 1) - 1) as nat == n);
                }
                lemma_styled_push(out@, part, default_style, properties, n + 1);
            }
            out.push(part);
        }
        if body_end < b {
            let part = RangedStyle { style: segment.style, range: Span { start: body_end, end: b } };
            proof {
                lemma_covers_push(out@, part);
                assert forall|byte: int| part.range.contains(byte) implies part.style
                    == #[trigger] style_at(default_style, properties, n + 1, byte) by {
                    assert(styles@[i as int].range.contains(byte));
                    assert(segment.style == style_at(default_style, properties, n, byte));
                    assert(((n + 1) - 1) as nat == n);
                }
                lemma_styled_push(out@, part, default_style, properties, n + 1);
            }
            out.push(part);
        }
        i += 1;
    }
    out
}

/// A range that begins where the ranges so far end can follow them.
proof fn lemma_covers_push(styles: Seq<RangedStyle>, part: RangedStyle)
    requires
        covers(styles, part.range.start as int),
        part.range.start < part.range.end,
    ensures
        covers(styles.push(part), part.range.end as int),
{
    let longer = styles.push(part);
    assert forall|i: int| 0 <= i < longer.len() implies (#[trigger] longer[i]).range.start
        < longer[i].range.end by {
        if i < styles.len() {
            assert(longer[i] == styles[i]);
        }
    }
    assert forall|i: int, j: int| 0 <= i && j == i + 1 && j < longer.len() implies (
    #[trigger] longer[i]).range.end == (#[trigger] longer[j]).range.start by {
        assert(longer[i] == styles[i]);
        if j < styles.len() {
            assert(longer[j] == styles[j]);
        }
    }
    if styles.len() > 0 {
        assert(longer[0] == styles[0]);
    }
}

/// A range whose bytes all have its style can follow the ranges so far.
proof fn lemma_styled_push(
    styles: Seq<RangedStyle>,
    part: RangedStyle,
    default_style: ResolvedStyle,
    properties: Seq<RangedProperty>,
    n: nat,
)
    requires
        styled_as(styles, default_style, properties, n),
        forall|byte: int|
            part.range.contains(byte) ==> part.style == #[trigger] style_at(
                default_style,
                properties,
                n,
                byte,
            ),
    ensures
        styled_as(styles.push(part), default_style, properties, n),
{
    let longer = styles.push(part);
    assert forall|k: int, byte: int|
        0 <= k < longer.len() && (#[trigger] longer[k]).range.contains(byte) implies longer[k].style
        == #[trigger] style_at(default_style, properties, n, byte) by {
        if k < styles.len() {
            assert(longer[k] == styles[k]);
        }
    }
}

/// The last range can be made to end later.
proof fn lemma_covers_extend(styles: Seq<RangedStyle>, end: usize)
    requires
        styles.len() > 0,
        covers(styles, styles.last().range.end as int),
        styles.last().range.end <= end,
    ensures
        covers(
            styles.update(
                styles.len() - 1,
                RangedStyle {
                    style: styles.last().style,
                    range: Span { start: styles.last().range.start, end },
                },
            ),
            end as int,
        ),
{
    let last = styles.len() - 1;
    let longer = styles.update(
        last,
        RangedStyle { style: styles.last().style, range: Span { start: styles.last().range.start, end } },
    );
    assert forall|i: int| 0 <= i < longer.len() implies (#[trigger] longer[i]).range.start
        < longer[i].range.end by {
        if i < last {
            assert(longer[i] == styles[i]);
        } else {
            assert(styles[last].range.start < styles[last].range.end);
        }
    }
    assert forall|i: int, j: int| 0 <= i && j == i + 1 && j < longer.len() implies (
    #[trigger] longer[i]).range.end == (#[trigger] longer[j]).range.start by {
        assert(longer[i] == styles[i]);
        assert(styles[i].range.end == styles[j].range.start);
    }
    if last > 0 {
        assert(longer[0] == styles[0]);
    }
}

/// Joins the neighbours that have the same style.
fn merge(
    styles: &Vec<RangedStyle>,
    len: usize,
    Ghost(default_style): Ghost<ResolvedStyle>,
    Ghost(properties): Ghost<Seq<RangedProperty>>,
    Ghost(n): Ghost<nat>,
) -> (r: Vec<RangedStyle>)
    requires
        covers(styles@, len as int),
        styled_as(styles@, default_style, properties, n),
    ensures
        covers(r@, len as int),
        styled_as(r@, default_style, properties, n),
        neighbours_differ(r@),
{
    let mut out: Vec<RangedStyle> = Vec::new();
    let mut i: usize = 0;
    while i < styles.len()
        invariant
            i <= styles@.len(),
            covers(styles@, len as int),
            styled_as(styles@, default_style, properties, n),
            covers(
                out@,
                if i < styles@.len() {
                    styles@[i as int].range.start as int
                } else {
                    len as int
                },
            ),
            styled_as(out@, default_style, properties, n),
            neighbours_differ(out@),
        decreases styles@.len() - i,
    {
        let segment = styles[i];
        let ghost before = out@;
        proof {
            if i + 1 < styles@.len() {
                assert(styles@[i as int].range.end == styles@[i + 1].range.start);
            }
        }
        let count = out.len();
        if count > 0 && out[count - 1].style == segment.style {
            proof {
                lemma_covers_extend(before, segment.range.end);
            }
            out[count - 1].range.end = segment.range.end;
            proof {
                let last = count - 1;
                assert(out@ =~= before.update(
                    last,
                    RangedStyle {
                        style: before.last().style,
                        range: Span { start: before.last().range.start, end: segment.range.end },
                    },
                ));
                assert forall|k: int, byte: int|
                    0 <= k < out@.len() && (#[trigger] out@[k]).range.contains(
                        byte,
                    ) implies out@[k].style == #[trigger] style_at(
                    default_style,
                    properties,
                    n,
                    byte,
                ) by {
                    if k < last {
                        assert(out@[k] == before[k]);
                    } else if byte < before[last].range.end {
                        assert(before[last].range.contains(byte));
                    } else {
                        assert(styles@[i as int].range.contains(byte));
                    }
                }
                assert forall|j: int, k: int| 0 <= j && k == j + 1 && k < out@.len() implies (
                #[trigger] out@[j]).style != (#[trigger] out@[k]).style by {
                    assert(out@[j].style == before[j].style);
                    assert(out@[k].style == before[k].style);
                }
            }
        } else {
            proof {
                lemma_covers_push(out@, segment);
                assert forall|byte: int| segment.range.contains(byte) implies segment.style
                    == #[trigger] style_at(default_style, properties, n, byte) by {
                    assert(styles@[i as int].range.contains(byte));
                }
                lemma_styled_push(out@, segment, default_style, properties, n);
            }
            out.push(segment);
            proof {
                assert forall|j: int, k: int| 0 <= j && k == j + 1 && k < out@.len() implies (
                #[trigger] out@[j]).style != (#[trigger] out@[k]).style by {
                    assert(out@[j] == before[j]);
                    if k < before.len() {
                        assert(out@[k] == before[k]);
                    }
                }
            }
        }
        i += 1;
    }
    out
}

impl RangedStyleBuilder {
    /// `begin` was called, and `finish` has not been since.
    pub open spec fn is_begun(&self) -> bool {
        self.len != usize::MAX
    }

    /// `range` held within the first `len` bytes.
    pub open spec fn within(range: Span, len: usize) -> Span {
        Span {
            start: if range.start < len {
                range.start
            } else {
                len
            },
            end: if range.end < len {
                range.end
            } else {
                len
            },
        }
    }

    /// Prepares the builder for a text of `len` bytes, whose style is
    /// `default_style` wherever no property is pushed.
    pub fn begin(&mut self, default_style: ResolvedStyle, len: usize)
        requires
            len < usize::MAX,
        ensures
            final(self).is_begun(),
            final(self).len == len,
            final(self).default_style == default_style,
            final(self).properties@ == Seq::<RangedProperty>::empty(),
    {
        self.properties.clear();
        self.default_style = default_style;
        self.len = len;
    }

    /// Sets a property for the whole text.
    pub fn push_default(&mut self, property: ResolvedProperty)
        requires
            old(self).is_begun(),
        ensures
            final(self).default_style == old(self).default_style.with(property),
            final(self).properties == old(self).properties,
            final(self).len == old(self).len,
    {
        self.default_style.apply(property);
    }

    /// Sets a property for the bytes of `range`, as far as they lie within
    /// the text. It wins over what was pushed before.
    pub fn push(&mut self, property: ResolvedProperty, range: Span)
        requires
            old(self).is_begun(),
        ensures
            final(self).properties@ == old(self).properties@.push(
                RangedProperty { property, range: Self::within(range, old(self).len) },
            ),
            final(self).default_style == old(self).default_style,
            final(self).len == old(self).len,
    {
        let start = if range.start < self.len {
            range.start
        } else {
            self.len
        };
        let end = if range.end < self.len {
            range.end
        } else {
            self.len
        };
        self.properties.push(RangedProperty { property, range: Span { start, end } });
    }

    /// Computes the sequence of ranged styles, writes it to `styles`, and
    /// leaves the builder idle. On a builder that was not begun, `styles`
    /// stays as it is.
    ///
    /// The ranges cover the text. Each has the style that the default style
    /// and the properties pushed over its bytes give, and a style other
    /// than that of its neighbours.
    pub fn finish(&mut self, styles: &mut Vec<RangedStyle>)
        ensures
            !final(self).is_begun(),
            final(self).properties@.len() == 0,
            final(self).default_style == old(self).default_style,
            old(self).is_begun() ==> {
                &&& covers(final(styles)@, old(self).len as int)
                &&& styled_as(
                    final(styles)@,
                    old(self).default_style,
                    old(self).properties@,
                    old(self).properties@.len(),
                )
                &&& neighbours_differ(final(styles)@)
            },
            !old(self).is_begun() ==> final(styles)@ == old(styles)@,
    {
        if self.len == usize::MAX {
            self.properties.clear();
            return ;
        }
        let ghost default_style = self.default_style;
        let ghost properties = self.properties@;
        let mut flat: Vec<RangedStyle> = Vec::new();
        if self.len > 0 {
            flat.push(RangedStyle { style: self.default_style, range: Span { start: 0, end: self.len } });
        }
        let mut n: usize = 0;
        while n < self.properties.len()
            invariant
                n <= self.properties@.len(),
                properties == self.properties@,
                self.len == old(self).len,
                default_style == old(self).default_style,
                properties == old(self).properties@,
                covers(flat@, self.len as int),
                styled_as(flat@, default_style, properties, n as nat),
            decreases self.properties@.len() - n,
        {
            let property = self.properties[n];
            // A range that holds no byte changes nothing.
            if property.range.start < property.range.end {
                flat = overlay(
                    &flat,
                    property,
                    self.len,
                    Ghost(default_style),
                    Ghost(properties),
                    Ghost(n as nat),
                );
            } else {
                proof {
                    assert forall|k: int, byte: int|
                        0 <= k < flat@.len() && (#[trigger] flat@[k]).range.contains(
                            byte,
                        ) implies flat@[k].style == #[trigger] style_at(
                        default_style,
                        properties,
                        (n + 1) as nat,
                        byte,
                    ) by {
                        assert(flat@[k].style == style_at(default_style, properties, n as nat, byte));
                        assert(((n + 1) - 1) as nat == n as nat);
                    }
                }
            }
            n += 1;
        }
        let merged = merge(
            &flat,
            self.len,
            Ghost(default_style),
            Ghost(properties),
            Ghost(n as nat),
        );
        *styles = merged;
        self.properties.clear();
        self.len = usize::MAX;
    }
}

impl Default for RangedStyleBuilder {
    /// A builder that is not begun.
    fn default() -> (r: Self)
        ensures
            !r.is_begun(),
            r.properties@.len() == 0,
            r.default_style == ResolvedStyle::initial(),
    {
        RangedStyleBuilder {
            properties: Vec::new(),
            default_style: ResolvedStyle::default(),
            len: usize::MAX,
        }
    }
}

} // verus!
