use parley::layout::line::reorder::reorder_line_items;
use parley::layout::{LayoutItemKind, LineItemData};
use parley::span::Span;

fn items(levels: &[u8]) -> Vec<LineItemData> {
    levels
        .iter()
        .enumerate()
        .map(|(i, level)| LineItemData {
            kind: LayoutItemKind::TextRun,
            index: i,
            bidi_level: *level,
            cluster_range: Span { start: i, end: i + 1 },
            text_range: Span { start: i, end: i + 1 },
            advance: 0,
            is_whitespace: false,
            has_trailing_whitespace: false,
        })
        .collect()
}

fn visual_order(levels: &[u8]) -> Vec<usize> {
    let mut line = items(levels);
    let range = Span { start: 0, end: line.len() };
    reorder_line_items(&mut line, range);
    line.iter().map(|item| item.index).collect()
}

/// Rule L2 of the Unicode bidirectional algorithm, as it is written: from
/// the highest level down to the lowest odd level, reverse every sequence at
/// that level or higher.
fn rule_l2(levels: &[u8]) -> Vec<usize> {
    let mut order: Vec<usize> = (0..levels.len()).collect();
    let max = levels.iter().copied().max().unwrap_or(0);
    let lowest_odd = levels.iter().copied().filter(|l| l % 2 == 1).min();
    let Some(lowest_odd) = lowest_odd else {
        return order;
    };
    let mut level = max;
    while level >= lowest_odd {
        let mut i = 0;
        while i < order.len() {
            if levels[order[i]] >= level {
                let mut end = i;
                while end < order.len() && levels[order[end]] >= level {
                    end += 1;
                }
                order[i..end].reverse();
                i = end;
            } else {
                i += 1;
            }
        }
        level -= 1;
    }
    order
}

#[test]
fn left_to_right_line_keeps_its_order() {
    assert_eq!(visual_order(&[0, 0, 0, 0]), vec![0, 1, 2, 3]);
}

#[test]
fn even_levels_alone_keep_their_order() {
    assert_eq!(visual_order(&[0, 2, 2, 0]), vec![0, 1, 2, 3]);
}

#[test]
fn right_to_left_line_is_reversed() {
    assert_eq!(visual_order(&[1, 1, 1]), vec![2, 1, 0]);
}

#[test]
fn right_to_left_stretch_is_reversed_in_place() {
    assert_eq!(visual_order(&[0, 1, 1, 0]), vec![0, 2, 1, 3]);
}

#[test]
fn nested_levels_are_reversed_from_the_highest_down() {
    // The example of the standard: levels 0 1 2 1 0 keep the inner run in
    // its own order within the reversed outer run.
    assert_eq!(visual_order(&[1, 2, 2, 1]), vec![3, 1, 2, 0]);
    assert_eq!(visual_order(&[0, 1, 2, 3, 2, 1, 0]), vec![0, 5, 2, 3, 4, 1, 6]);
}

#[test]
fn empty_and_single_lines_are_left_alone() {
    assert_eq!(visual_order(&[]), Vec::<usize>::new());
    assert_eq!(visual_order(&[1]), vec![0]);
    assert_eq!(visual_order(&[255]), vec![0]);
}

#[test]
fn only_the_range_of_the_line_is_reordered() {
    let mut line = items(&[1, 1, 1, 1, 1, 1]);
    reorder_line_items(&mut line, Span { start: 2, end: 5 });
    let order: Vec<usize> = line.iter().map(|item| item.index).collect();
    assert_eq!(order, vec![0, 1, 4, 3, 2, 5]);
    let mut line = items(&[1, 1]);
    reorder_line_items(&mut line, Span { start: 1, end: 1 });
    assert_eq!(line, items(&[1, 1]));
}

#[test]
fn reorder_agrees_with_rule_l2_on_all_short_lines() {
    // Every line of up to six items at levels 0 to 3.
    for len in 0..=6usize {
        let count = 4usize.pow(len as u32);
        for code in 0..count {
            let mut levels = Vec::new();
            let mut rest = code;
            for _ in 0..len {
                levels.push((rest % 4) as u8);
                rest /= 4;
            }
            assert_eq!(visual_order(&levels), rule_l2(&levels), "levels {:?}", levels);
        }
    }
}
