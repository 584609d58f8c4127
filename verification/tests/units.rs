use parley::span::Span;
use parley::units::{is_finite, round, scale_by, scale_offset, HALF, ONE, UNBOUNDED};

#[test]
fn scale_multiplies_in_fixed_point() {
    assert_eq!(scale_by(8 * ONE, ONE + HALF), 12 * ONE);
    assert_eq!(scale_by(3, HALF), 1);
    assert_eq!(scale_by(0, UNBOUNDED), 0);
    assert_eq!(scale_by(ONE, ONE), ONE);
}

#[test]
fn scale_stops_at_the_top_of_the_range() {
    assert_eq!(scale_by(u64::MAX, 2 * ONE), u64::MAX);
    assert_eq!(scale_by(u64::MAX, ONE), u64::MAX);
    assert_eq!(scale_by(u64::MAX, HALF), u64::MAX / 2);
}

#[test]
fn scale_offset_keeps_the_sign() {
    assert_eq!(scale_offset(-2 * ONE as i64, ONE + HALF), -3 * ONE as i64);
    assert_eq!(scale_offset(2 * ONE as i64, ONE + HALF), 3 * ONE as i64);
    assert_eq!(scale_offset(-3, HALF), -1);
    assert_eq!(scale_offset(i64::MIN, ONE), -i64::MAX);
    assert_eq!(scale_offset(i64::MAX, 2 * ONE), i64::MAX);
    assert_eq!(scale_offset(i64::MIN, 2 * ONE), -i64::MAX);
}

#[test]
fn round_gives_whole_units_with_halves_upwards() {
    assert_eq!(round(0), 0);
    assert_eq!(round(HALF - 1), 0);
    assert_eq!(round(HALF), ONE);
    assert_eq!(round(ONE + HALF - 1), ONE);
    assert_eq!(round(7 * ONE + HALF), 8 * ONE);
    assert_eq!(round(u64::MAX), u64::MAX);
}

#[test]
fn only_the_top_of_the_range_is_no_limit() {
    assert!(is_finite(0));
    assert!(is_finite(u64::MAX - 1));
    assert!(!is_finite(UNBOUNDED));
}

#[test]
fn span_length_and_emptiness() {
    assert_eq!(Span::new(2, 5), Span { start: 2, end: 5 });
    assert_eq!(Span { start: 2, end: 5 }.len(), 3);
    assert!(!Span { start: 2, end: 5 }.is_empty());
    assert_eq!(Span { start: 5, end: 5 }.len(), 0);
    assert!(Span { start: 5, end: 5 }.is_empty());
    assert_eq!(Span { start: 6, end: 5 }.len(), 0);
    assert!(Span { start: 6, end: 5 }.is_empty());
}
