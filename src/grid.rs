//! The quantization grid: how an offset from the south-west corner of the
//! world maps to a cell number, and which offset a cell number maps back to.
use vstd::prelude::*;
use vstd::arithmetic::div_mod::{
    lemma_div_pos_is_pos,
    lemma_fundamental_div_mod,
    lemma_fundamental_div_mod_converse_div,
    lemma_mod_bound,
};

verus! {

/// Ten-millionths of a degree in one degree.
pub const UNITS_PER_DEGREE: i64 = 10_000_000;

/// 90 degrees: the largest latitude, in coordinate units.
pub const LAT_LIMIT: i64 = 900_000_000;

/// 180 degrees: the largest longitude, in coordinate units.
pub const LON_LIMIT: i64 = 1_800_000_000;

/// Width of the latitude range, in coordinate units.
pub const LAT_SPAN: u64 = 1_800_000_000;

/// Width of the longitude range, in coordinate units.
pub const LON_SPAN: u64 = 3_600_000_000;

/// Largest latitude cell number: the field has 22 bits.
pub const LAT_MAX: u64 = 4_194_303;

/// Largest longitude cell number: the field has 23 bits.
pub const LON_MAX: u64 = 8_388_607;

/// Number of longitude cells, the factor that places the latitude field
/// above the longitude field.
pub const LON_CELLS: u64 = 8_388_608;

/// The cell that holds offset `x` of a range `span` wide, cut into `max`
/// steps: `x / span` scaled to `max` and truncated.
pub open spec fn quantize(x: int, span: int, max: int) -> int {
    x * max / span
}

/// The smallest offset whose cell is `b`: `b / max` scaled to `span`,
/// rounded up.
pub open spec fn cell_start(b: int, span: int, max: int) -> int {
    (b * span + max - 1) / max
}

/// Every offset of the range falls in one of the cells 0 to `max`.
pub proof fn lemma_quantize_range(x: int, span: int, max: int)
    requires
        0 <= x <= span,
        0 < span,
        0 < max,
    ensures
        0 <= quantize(x, span, max) <= max,
{
    let q = quantize(x, span, max);
    assert(0 <= x * max) by (nonlinear_arith)
        requires
            0 <= x,
            0 < max,
    ;
    lemma_div_pos_is_pos(x * max, span);
    lemma_fundamental_div_mod(x * max, span);
    lemma_mod_bound(x * max, span);
    assert(q <= max) by (nonlinear_arith)
        requires
            x * max == span * q + (x * max) % span,
            0 <= (x * max) % span,
            x <= span,
            0 < span,
            0 < max,
    ;
}

/// The start of the cell that holds `x` lies at most one cell width below `x`.
pub proof fn lemma_cell_start_bounds(x: int, span: int, max: int)
    requires
        0 <= x <= span,
        0 < max < span,
    ensures
        0 <= cell_start(quantize(x, span, max), span, max) <= x,
        (x - cell_start(quantize(x, span, max), span, max)) * max < span,
{
    let q = quantize(x, span, max);
    let c = cell_start(q, span, max);
    lemma_quantize_range(x, span, max);
    lemma_fundamental_div_mod(x * max, span);
    lemma_mod_bound(x * max, span);
    let n = q * span + max - 1;
    assert(0 <= n) by (nonlinear_arith)
        requires
            n == q * span + max - 1,
            0 <= q,
            0 < span,
            0 < max,
    ;
    lemma_div_pos_is_pos(n, max);
    lemma_fundamental_div_mod(n, max);
    lemma_mod_bound(n, max);
    assert(c <= x) by (nonlinear_arith)
        requires
            n == max * c + n % max,
            0 <= n % max,
            n == q * span + max - 1,
            x * max == span * q + (x * max) % span,
            0 <= (x * max) % span,
            0 < max,
    ;
    assert((x - c) * max < span) by (nonlinear_arith)
        requires
            n == max * c + n % max,
            n % max < max,
            n == q * span + max - 1,
            x * max == span * q + (x * max) % span,
            (x * max) % span < span,
    ;
}

/// A cell number of the range is read back to an offset of the range, and
/// that offset lies in the same cell.
pub proof fn lemma_cell_start_quantize(b: int, span: int, max: int)
    requires
        0 <= b <= max,
        0 < max < span,
    ensures
        0 <= cell_start(b, span, max) <= span,
        quantize(cell_start(b, span, max), span, max) == b,
{
    let c = cell_start(b, span, max);
    let n = b * span + max - 1;
    assert(0 <= n) by (nonlinear_arith)
        requires
            n == b * span + max - 1,
            0 <= b,
            0 < span,
            0 < max,
    ;
    lemma_div_pos_is_pos(n, max);
    lemma_fundamental_div_mod(n, max);
    lemma_mod_bound(n, max);
    assert(b * span <= max * span) by (nonlinear_arith)
        requires
            b <= max,
            0 < span,
    ;
    assert(c * max < (span + 1) * max) by (nonlinear_arith)
        requires
            n == max * c + n % max,
            0 <= n % max,
            n == b * span + max - 1,
            b * span <= max * span,
    ;
    assert(c <= span) by (nonlinear_arith)
        requires
            c * max < (span + 1) * max,
            0 <= n % max,
            n == b * span + max - 1,
            b <= max,
            0 < max,
    ;
    let r = c * max - b * span;
    assert(0 <= r < span) by (nonlinear_arith)
        requires
            n == max * c + n % max,
            0 <= n % max < max,
            n == b * span + max - 1,
            r == c * max - b * span,
            max < span,
    ;
    lemma_fundamental_div_mod_converse_div(c * max, span, b, r);
}

} // verus!
