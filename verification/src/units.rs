//! Fixed-point layout units.
//!
//! A coordinate is a `u64` that counts 1/65536ths of a layout unit. Sums and
//! products saturate at `u64::MAX`, which as a line width means "no limit".

use vstd::prelude::*;

verus! {

/// One layout unit.
pub const ONE: u64 = 65536;

/// Half a layout unit.
pub const HALF: u64 = 32768;

/// The width of a line that has no limit.
pub const UNBOUNDED: u64 = u64::MAX;

/// The coordinate nearest to `v`.
pub open spec fn clamp(v: int) -> u64 {
    if v < 0 {
        0
    } else if v > u64::MAX {
        u64::MAX
    } else {
        v as u64
    }
}

/// The sum of two coordinates, which stops at the top of the range.
pub open spec fn plus(a: u64, b: u64) -> u64 {
    clamp(a + b)
}

/// The difference of two coordinates, which stops at 0.
pub open spec fn minus(a: u64, b: u64) -> u64 {
    clamp(a - b)
}

/// The product of a coordinate and a fixed-point factor, rounded down.
pub open spec fn scaled(a: u64, factor: u64) -> u64 {
    clamp((a * factor) / (ONE as int))
}

/// `v` rounded to a whole number of layout units, halves upwards.
pub open spec fn rounded(v: u64) -> u64 {
    clamp(((v + HALF) / (ONE as int)) * ONE)
}

/// The width is a limit.
pub open spec fn spec_is_finite(width: u64) -> bool {
    width != UNBOUNDED
}

/// Tells whether the width is a limit.
#[verifier::when_used_as_spec(spec_is_finite)]
pub fn is_finite(width: u64) -> (r: bool)
    ensures
        r == spec_is_finite(width),
{
    width != UNBOUNDED
}

/// See `scaled`.
pub fn scale_by(a: u64, factor: u64) -> (r: u64)
    ensures
        r == scaled(a, factor),
{
    assert(a * factor <= 0xFFFF_FFFF_FFFF_FFFF * 0xFFFF_FFFF_FFFF_FFFF) by (nonlinear_arith)
        requires
            0 <= a <= 0xFFFF_FFFF_FFFF_FFFF,
            0 <= factor <= 0xFFFF_FFFF_FFFF_FFFF,
    ;
    assert(a * factor >= 0) by (nonlinear_arith)
        requires
            0 <= a,
            0 <= factor,
    ;
    let wide: u128 = (a as u128) * (factor as u128) / (ONE as u128);
    if wide > u64::MAX as u128 {
        u64::MAX
    } else {
        wide as u64
    }
}

/// See `rounded`.
pub fn round(v: u64) -> (r: u64)
    ensures
        r == rounded(v),
{
    let whole: u64 = (v / ONE).saturating_add(if v % ONE >= HALF { 1 } else { 0 });
    assert(whole == clamp((v + HALF) / (ONE as int)));
    if whole > u64::MAX / ONE {
        assert(((v + HALF) / (ONE as int)) * ONE > u64::MAX);
        u64::MAX
    } else {
        whole * ONE
    }
}

/// The magnitude of a signed coordinate.
pub open spec fn magnitude(v: i64) -> u64 {
    if v < 0 {
        (-v) as u64
    } else {
        v as u64
    }
}

/// The product of a signed coordinate and a fixed-point factor: that of its
/// magnitude, with its sign, held within the range of `i64`.
pub open spec fn scaled_offset(v: i64, factor: u64) -> i64 {
    let product = if scaled(magnitude(v), factor) > i64::MAX {
        i64::MAX
    } else {
        scaled(magnitude(v), factor) as i64
    };
    if v < 0 {
        (-product) as i64
    } else {
        product
    }
}

/// See `scaled_offset`.
pub fn scale_offset(v: i64, factor: u64) -> (r: i64)
    ensures
        r == scaled_offset(v, factor),
{
    let size: u64 = if v < 0 {
        if v == i64::MIN {
            0x8000_0000_0000_0000
        } else {
            (-v) as u64
        }
    } else {
        v as u64
    };
    let wide = scale_by(size, factor);
    let product: i64 = if wide > i64::MAX as u64 {
        i64::MAX
    } else {
        wide as i64
    };
    if v < 0 {
        -product
    } else {
        product
    }
}

} // verus!
