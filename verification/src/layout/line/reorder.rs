//! Visual order of the items of a line.

use vstd::prelude::*;
use crate::layout::LineItemData;
use crate::span::Span;

verus! {

/// The highest bidi level among `items`, 0 where there is none.
pub open spec fn max_level(items: Seq<LineItemData>) -> u8
    decreases items.len(),
{
    if items.len() == 0 {
        0
    } else {
        let rest = max_level(items.drop_last());
        if items.last().bidi_level > rest {
            items.last().bidi_level
        } else {
            rest
        }
    }
}

/// The lowest odd bidi level among `items`, 255 where there is none.
pub open spec fn lowest_odd_level(items: Seq<LineItemData>) -> u8
    decreases items.len(),
{
    if items.len() == 0 {
        255
    } else {
        let rest = lowest_odd_level(items.drop_last());
        let level = items.last().bidi_level;
        if level % 2 == 1 && level < rest {
            level
        } else {
            rest
        }
    }
}

/// Where the stretch of neighbours at `level` or above begins that holds item `i`.
pub open spec fn stretch_start(items: Seq<LineItemData>, level: int, i: int) -> int
    decreases i,
{
    if 0 < i <= items.len() && items[i - 1].bidi_level >= level {
        stretch_start(items, level, i - 1)
    } else {
        i
    }
}

/// Where the stretch of neighbours at `level` or above ends that holds item
/// `i`: the index behind its last item.
pub open spec fn stretch_end(items: Seq<LineItemData>, level: int, i: int) -> int
    decreases items.len() - i,
{
    if 0 <= i + 1 < items.len() && items[i + 1].bidi_level >= level {
        stretch_end(items, level, i + 1)
    } else {
        i + 1
    }
}

/// `items` with every maximal stretch of neighbours at `level` or above
/// turned end for end.
pub open spec fn reverse_stretches(items: Seq<LineItemData>, level: int) -> Seq<LineItemData> {
    Seq::new(
        items.len(),
        |i: int|
            if items[i].bidi_level >= level {
                items[stretch_start(items, level, i) + stretch_end(items, level, i) - 1 - i]
            } else {
                items[i]
            },
    )
}

/// `items` after the stretches were reversed at `level`, then at each level
/// below it down to `lowest`.
pub open spec fn reorder_from(items: Seq<LineItemData>, level: int, lowest: int) -> Seq<
    LineItemData,
>
    decreases level - lowest + 1,
{
    if level < lowest {
        items
    } else {
        reorder_from(reverse_stretches(items, level), level - 1, lowest)
    }
}

/// The visual order of the items of a line that are given in logical order:
/// from the highest level found on the line down to the lowest odd level,
/// every stretch of neighbours at that level or above is reversed.
pub open spec fn reordered(items: Seq<LineItemData>) -> Seq<LineItemData> {
    reorder_from(items, max_level(items) as int, lowest_odd_level(items) as int)
}

/// Within a stretch `[lo, hi)` that cannot be widened, every item has `lo`
/// for the start of its stretch and `hi` for its end.
pub proof fn lemma_stretch_bounds(items: Seq<LineItemData>, level: int, lo: int, hi: int, i: int)
    requires
        0 <= lo <= i < hi <= items.len(),
        forall|q: int| lo <= q < hi ==> (#[trigger] items[q]).bidi_level >= level,
        lo == 0 || items[lo - 1].bidi_level < level,
        hi == items.len() || items[hi].bidi_level < level,
    ensures
        stretch_start(items, level, i) == lo,
        stretch_end(items, level, i) == hi,
{
    lemma_stretch_start(items, level, lo, i);
    lemma_stretch_end(items, level, hi, i);
}

proof fn lemma_stretch_start(items: Seq<LineItemData>, level: int, lo: int, i: int)
    requires
        0 <= lo <= i < items.len(),
        forall|q: int| lo <= q < i ==> (#[trigger] items[q]).bidi_level >= level,
        lo == 0 || items[lo - 1].bidi_level < level,
    ensures
        stretch_start(items, level, i) == lo,
    decreases i - lo,
{
    if i > lo {
        assert(items[i - 1].bidi_level >= level);
        lemma_stretch_start(items, level, lo, i - 1);
    }
}

proof fn lemma_stretch_end(items: Seq<LineItemData>, level: int, hi: int, i: int)
    requires
        0 <= i < hi <= items.len(),
        forall|q: int| i < q < hi ==> (#[trigger] items[q]).bidi_level >= level,
        hi == items.len() || items[hi].bidi_level < level,
    ensures
        stretch_end(items, level, i) == hi,
    decreases hi - i,
{
    if i + 1 < hi {
        assert(items[i + 1].bidi_level >= level);
        lemma_stretch_end(items, level, hi, i + 1);
    }
}

/// A line whose items are all at level 0 is in visual order as it stands.
pub proof fn lemma_reorder_keeps_left_to_right(items: Seq<LineItemData>)
    requires
        forall|i: int| 0 <= i < items.len() ==> (#[trigger] items[i]).bidi_level == 0,
    ensures
        reordered(items) == items,
    decreases items.len(),
{
    lemma_levels_of_left_to_right(items);
}

proof fn lemma_levels_of_left_to_right(items: Seq<LineItemData>)
    requires
        forall|i: int| 0 <= i < items.len() ==> (#[trigger] items[i]).bidi_level == 0,
    ensures
        max_level(items) == 0,
        lowest_odd_level(items) == 255,
    decreases items.len(),
{
    if items.len() > 0 {
        assert(items.last().bidi_level == 0);
        assert forall|i: int| 0 <= i < items.drop_last().len() implies (
        #[trigger] items.drop_last()[i]).bidi_level == 0 by {
            assert(items.drop_last()[i] == items[i]);
        }
        lemma_levels_of_left_to_right(items.drop_last());
    }
}

/// Reversing the stretches of a line of at most one item changes nothing.
pub proof fn lemma_reverse_single(items: Seq<LineItemData>, level: int)
    requires
        items.len() <= 1,
    ensures
        reverse_stretches(items, level) == items,
{
    assert(reverse_stretches(items, level) =~= items);
}

/// A line of at most one item is in visual order as it stands.
pub proof fn lemma_reorder_keeps_single(items: Seq<LineItemData>, level: int, lowest: int)
    requires
        items.len() <= 1,
    ensures
        reorder_from(items, level, lowest) == items,
    decreases level - lowest + 1,
{
    if level >= lowest {
        lemma_reverse_single(items, level);
        lemma_reorder_keeps_single(items, level - 1, lowest);
    }
}

/// The lowest odd level is odd: 255 stands for "none".
pub proof fn lemma_lowest_odd_is_odd(items: Seq<LineItemData>)
    ensures
        lowest_odd_level(items) % 2 == 1,
    decreases items.len(),
{
    if items.len() > 0 {
        lemma_lowest_odd_is_odd(items.drop_last());
    }
}

/// Two items that change places leave the items what they were, as a
/// collection.
proof fn lemma_swap_keeps_items(items: Seq<LineItemData>, j: int, k: int)
    requires
        0 <= j < items.len(),
        0 <= k < items.len(),
    ensures
        items.update(j, items[k]).update(k, items[j]).to_multiset() == items.to_multiset(),
{
    let first = items.update(j, items[k]);
    vstd::seq_lib::to_multiset_update(items, j, items[k]);
    vstd::seq_lib::to_multiset_update(first, k, items[j]);
    vstd::seq_lib::to_multiset_contains(items, items[j]);
    vstd::seq_lib::to_multiset_contains(items, items[k]);
    assert(first[k] == items[k]);
    assert(items.contains(items[j]));
    assert(items.contains(items[k]));
    assert(items.to_multiset().insert(items[k]).remove(items[j]).insert(items[j]).remove(items[k])
        =~= items.to_multiset());
}

/// Reverses, among the `count` items from `base` on, every maximal stretch
/// of neighbours whose level is `level` or above.
fn reverse_stretches_at(runs: &mut Vec<LineItemData>, base: usize, count: usize, level: u8)
    requires
        base + count <= old(runs).len(),
    ensures
        final(runs)@.len() == old(runs)@.len(),
        final(runs)@.to_multiset() == old(runs)@.to_multiset(),
        final(runs)@.subrange(base as int, base + count) == reverse_stretches(
            old(runs)@.subrange(base as int, base + count),
            level as int,
        ),
        forall|p: int|
            0 <= p < old(runs)@.len() && !(base <= p < base + count) ==> final(runs)@[p] == old(
                runs,
            )@[p],
{
    let ghost orig = runs@.subrange(base as int, base + count);
    let ghost target = reverse_stretches(orig, level as int);
    let mut i: usize = 0;
    while i < count
        invariant
            i <= count,
            base + count <= runs.len(),
            runs@.len() == old(runs)@.len(),
            runs@.to_multiset() == old(runs)@.to_multiset(),
            orig == old(runs)@.subrange(base as int, base + count),
            orig.len() == count,
            target == reverse_stretches(orig, level as int),
            forall|p: int|
                0 <= p < old(runs)@.len() && !(base <= p < base + count) ==> runs@[p] == old(
                    runs,
                )@[p],
            forall|p: int| 0 <= p < i ==> runs@[base + p] == #[trigger] target[p],
            forall|p: int| i <= p < count ==> runs@[base + p] == #[trigger] orig[p],
            i == 0 || i == count || orig[i - 1].bidi_level < level || orig[i as int].bidi_level
                < level,
        decreases count - i,
    {
        if runs[base + i].bidi_level >= level {
            assert(orig[i as int].bidi_level >= level);
            let mut end: usize = i + 1;
            while end < count && runs[base + end].bidi_level >= level
                invariant
                    i < end <= count,
                    base + count <= runs.len(),
                    orig.len() == count,
                    forall|p: int| i <= p < count ==> runs@[base + p] == #[trigger] orig[p],
                    forall|q: int| i <= q < end ==> (#[trigger] orig[q]).bidi_level >= level,
                decreases count - end,
            {
                assert(runs@[base + end] == orig[end as int]);
                end += 1;
            }
            assert(end == count || orig[end as int].bidi_level < level) by {
                if end < count {
                    assert(runs@[base + end] == orig[end as int]);
                }
            }
            proof {
                assert forall|p: int| i <= p < end implies #[trigger] target[p] == orig[i + end
                    - 1 - p] by {
                    lemma_stretch_bounds(orig, level as int, i as int, end as int, p);
                }
            }

            let mut j: usize = i;
            let mut k: usize = end - 1;
            while j < k
                invariant
                    i <= j,
                    k < end <= count,
                    j + k == i + end - 1,
                    j <= k + 1,
                    base + count <= runs.len(),
                    runs@.len() == old(runs)@.len(),
                    runs@.to_multiset() == old(runs)@.to_multiset(),
                    orig.len() == count,
                    target.len() == count,
                    forall|p: int|
                        0 <= p < old(runs)@.len() && !(base <= p < base + count) ==> runs@[p]
                            == old(runs)@[p],
                    forall|p: int| 0 <= p < i ==> runs@[base + p] == #[trigger] target[p],
                    forall|p: int| end <= p < count ==> runs@[base + p] == #[trigger] orig[p],
                    forall|p: int| j <= p <= k ==> runs@[base + p] == #[trigger] orig[p],
                    forall|p: int|
                        i <= p < end && !(j <= p <= k) ==> runs@[base + p] == #[trigger] orig[i
                            + end - 1 - p],
                decreases k + 1 - j,
            {
                let a = runs[base + j];
                let b = runs[base + k];
                assert(a == orig[j as int]);
                assert(b == orig[k as int]);
                let ghost before = runs@;
                runs[base + j] = b;
                runs[base + k] = a;
                proof {
                    lemma_swap_keeps_items(before, base + j, base + k);
                    assert(runs@ =~= before.update(base + j, b).update(base + k, a));
                }
                j += 1;
                k -= 1;
            }
            proof {
                assert forall|p: int| 0 <= p < end implies runs@[base + p] == #[trigger] target[p] by {
                    if p >= i {
                        if j <= p <= k {
                            assert(runs@[base + p] == orig[p]);
                        } else {
                            assert(runs@[base + p] == orig[i + end - 1 - p]);
                        }
                    }
                }
            }
            i = end;
        } else {
            assert(target[i as int] == orig[i as int]);
            i += 1;
        }
    }
    assert(runs@.subrange(base as int, base + count) =~= target);
}

/// Reorders the items of one line, given as a range of `runs`, from logical
/// to visual order according to their bidi levels. The items change places;
/// none is lost and none is changed.
pub fn reorder_line_items(runs: &mut Vec<LineItemData>, range: Span)
    requires
        range.start <= range.end <= old(runs).len(),
    ensures
        final(runs)@.len() == old(runs)@.len(),
        final(runs)@.to_multiset() == old(runs)@.to_multiset(),
        final(runs)@.subrange(range.start as int, range.end as int) == reordered(
            old(runs)@.subrange(range.start as int, range.end as int),
        ),
        forall|p: int|
            0 <= p < old(runs)@.len() && !(range.start <= p < range.end) ==> final(runs)@[p]
                == old(runs)@[p],
{
    let base = range.start;
    let run_count = range.end - range.start;
    let ghost orig = runs@.subrange(base as int, base + run_count);

    // Find the max level and the min odd level
    let mut max: u8 = 0;
    let mut lowest_odd: u8 = 255;
    let mut n: usize = 0;
    while n < run_count
        invariant
            n <= run_count,
            base + run_count <= runs.len(),
            runs@ == old(runs)@,
            orig == runs@.subrange(base as int, base + run_count),
            max == max_level(orig.take(n as int)),
            lowest_odd == lowest_odd_level(orig.take(n as int)),
        decreases run_count - n,
    {
        let level = runs[base + n].bidi_level;
        let is_odd = level % 2 != 0;
        proof {
            assert(orig.take(n + 1).drop_last() =~= orig.take(n as int));
            assert(orig.take(n + 1).last() == runs@[base + n]);
        }

        // Update max level
        if level > max {
            max = level;
        }
        // Update min odd level

        if is_odd && level < lowest_odd {
            lowest_odd = level;
        }
        n += 1;
    }
    proof {
        assert(orig.take(run_count as int) =~= orig);
        lemma_lowest_odd_is_odd(orig);
    }

    // Iterate over bidi levels
    let mut level: u8 = max;
    let ghost mut current = orig;
    while level >= lowest_odd
        invariant
            level <= max,
            lowest_odd >= 1,
            base + run_count <= runs.len(),
            base == range.start,
            base + run_count == range.end,
            runs@.len() == old(runs)@.len(),
            runs@.to_multiset() == old(runs)@.to_multiset(),
            current == runs@.subrange(base as int, base + run_count),
            reorder_from(current, level as int, lowest_odd as int) == reordered(orig),
            orig == old(runs)@.subrange(base as int, base + run_count),
            max == max_level(orig),
            lowest_odd == lowest_odd_level(orig),
            forall|p: int|
                0 <= p < old(runs)@.len() && !(base <= p < base + run_count) ==> runs@[p] == old(
                    runs,
                )@[p],
        decreases level,
    {
        reverse_stretches_at(runs, base, run_count, level);
        proof {
            current = runs@.subrange(base as int, base + run_count);
        }
        level -= 1;
    }
}

/// The stretch of an item lies within the line and holds the item.
pub proof fn lemma_stretch_in_line(items: Seq<LineItemData>, level: int, i: int)
    requires
        0 <= i < items.len(),
    ensures
        0 <= stretch_start(items, level, i) <= i,
        i < stretch_end(items, level, i) <= items.len(),
{
    lemma_stretch_start_in_line(items, level, i);
    lemma_stretch_end_in_line(items, level, i);
}

proof fn lemma_stretch_start_in_line(items: Seq<LineItemData>, level: int, i: int)
    requires
        0 <= i < items.len(),
    ensures
        0 <= stretch_start(items, level, i) <= i,
    decreases i,
{
    if 0 < i && items[i - 1].bidi_level >= level {
        lemma_stretch_start_in_line(items, level, i - 1);
    }
}

proof fn lemma_stretch_end_in_line(items: Seq<LineItemData>, level: int, i: int)
    requires
        0 <= i < items.len(),
    ensures
        i < stretch_end(items, level, i) <= items.len(),
    decreases items.len() - i,
{
    if i + 1 < items.len() && items[i + 1].bidi_level >= level {
        lemma_stretch_end_in_line(items, level, i + 1);
    }
}

/// Reordering moves the items of a line and changes none: what holds of
/// every item of the line in logical order holds of every item in visual
/// order.
pub proof fn lemma_reorder_from_members(
    items: Seq<LineItemData>,
    level: int,
    lowest: int,
    holds: spec_fn(LineItemData) -> bool,
)
    requires
        forall|i: int| 0 <= i < items.len() ==> holds(#[trigger] items[i]),
    ensures
        reorder_from(items, level, lowest).len() == items.len(),
        forall|i: int|
            0 <= i < items.len() ==> holds(#[trigger] reorder_from(items, level, lowest)[i]),
    decreases level - lowest + 1,
{
    if level >= lowest {
        let turned = reverse_stretches(items, level);
        assert forall|i: int| 0 <= i < turned.len() implies holds(#[trigger] turned[i]) by {
            lemma_stretch_in_line(items, level, i);
        }
        lemma_reorder_from_members(turned, level - 1, lowest, holds);
    }
}

/// See `lemma_reorder_from_members`.
pub proof fn lemma_reordered_members(
    items: Seq<LineItemData>,
    holds: spec_fn(LineItemData) -> bool,
)
    requires
        forall|i: int| 0 <= i < items.len() ==> holds(#[trigger] items[i]),
    ensures
        reordered(items).len() == items.len(),
        forall|i: int| 0 <= i < items.len() ==> holds(#[trigger] reordered(items)[i]),
{
    lemma_reorder_from_members(
        items,
        max_level(items) as int,
        lowest_odd_level(items) as int,
        holds,
    );
}

/// A line of at most one item is in visual order as it stands.
pub proof fn lemma_reordered_single(items: Seq<LineItemData>)
    requires
        items.len() <= 1,
    ensures
        reordered(items) == items,
{
    lemma_reorder_keeps_single(items, max_level(items) as int, lowest_odd_level(items) as int);
}

} // verus!
