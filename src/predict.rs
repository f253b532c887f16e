//! Spatial predictors reserved for higher-order coders: each averages
//! neighbours that a decoder has already rebuilt. Version 2 files do not use
//! them.
use vstd::prelude::*;
use crate::frame::FrameData;

verus! {

/// `v / 2` rounded toward zero.
pub open spec fn half_toward_zero(v: int) -> int {
    if v >= 0 { v / 2 } else { -((-v) / 2) }
}

/// `v` wrapped into the 16-bit signed range.
pub open spec fn wrap_i16(v: int) -> i16 {
    (((v + 98304) % 65536) - 32768) as i16
}

/// The mean of `a` and `b` rounded toward zero, wrapped to 16 signed bits.
pub fn average_2(a: i32, b: i32) -> (r: i16)
    requires
        i32::MIN <= a + b <= i32::MAX,
    ensures
        r == wrap_i16(half_toward_zero(a + b)),
{
    let s: i64 = a as i64 + b as i64;
    let q: i64 = if s >= 0 { s / 2 } else { -((-s) / 2) };
    let shifted: u64 = (q + 0x8000_8000) as u64;
    proof {
        vstd::arithmetic::div_mod::lemma_mod_multiples_vanish(32767, q + 98304, 65536);
        assert(65536 * 32767 + q + 98304 == shifted);
    }
    ((shifted % 65536) as i32 - 32768) as i16
}

/// Pixel at column `x` of row `y`.
pub open spec fn px(d: FrameData, x: int, y: int) -> int {
    d@.pixels[y * d@.width + x] as int
}

/// The left-hand prediction of pixel (`x`, `y`) from its left, top,
/// top-left and top-right neighbours; a missing neighbour falls back to the
/// nearest one there is, or zero.
pub open spec fn predict_left_spec(d: FrameData, x: int, y: int) -> i16 {
    let left = if x == 0 { if y == 0 { 0 } else { px(d, x, y - 1) } } else { px(d, x - 1, y) };
    let top = if y == 0 { 0 } else { px(d, x, y - 1) };
    let top_left = if y == 0 || x == 0 { left } else { px(d, x - 1, y - 1) };
    let top_right = if x == d@.width - 1 || y == 0 { top } else { px(d, x + 1, y - 1) };
    wrap_i16(
        half_toward_zero(
            wrap_i16(half_toward_zero(left + top_left)) + wrap_i16(half_toward_zero(top + top_right)),
        ),
    )
}

/// The right-hand prediction of pixel (`x`, `y`), mirroring the left one.
pub open spec fn predict_right_spec(d: FrameData, x: int, y: int) -> i16 {
    let right = if x == d@.width - 1 {
        if y == 0 { 0 } else { px(d, x, y - 1) }
    } else {
        px(d, x + 1, y)
    };
    let top = if y == 0 { 0 } else { px(d, x, y - 1) };
    let top_left = if y == 0 || x == 0 { right } else { px(d, x - 1, y - 1) };
    let top_right = if x == d@.width - 1 || y == 0 { top } else { px(d, x + 1, y - 1) };
    wrap_i16(
        half_toward_zero(
            wrap_i16(half_toward_zero(right + top_left)) + wrap_i16(half_toward_zero(top + top_right)),
        ),
    )
}

fn pixel(data: &FrameData, x: usize, y: usize) -> (r: i32)
    requires
        data.wf(),
        x < data@.width,
        y < data@.height,
    ensures
        r as int == px(*data, x as int, y as int),
{
    proof {
        assert(y * data@.width + x < data@.width * data@.height) by (nonlinear_arith)
            requires
                x < data@.width,
                y < data@.height,
        ;
    }
    let w = data.width();
    let d = data.data();
    let n = d.len();
    assert(y * w + x < n);
    d[y * w + x] as i32
}

/// Predicts pixel (`x`, `y`) from its left, top, top-left and top-right
/// neighbours.
pub fn predict_left(data: &FrameData, x: usize, y: usize) -> (r: i16)
    requires
        data.wf(),
        x < data@.width,
        y < data@.height,
    ensures
        r == predict_left_spec(*data, x as int, y as int),
{
    let left = if x == 0 {
        if y == 0 { 0 } else { pixel(data, x, y - 1) }
    } else {
        pixel(data, x - 1, y)
    };
    let top = if y == 0 { 0 } else { pixel(data, x, y - 1) };
    let top_left = if y == 0 || x == 0 { left } else { pixel(data, x - 1, y - 1) };
    let top_right = if x == data.width() - 1 || y == 0 { top } else { pixel(data, x + 1, y - 1) };
    average_2(average_2(left, top_left) as i32, average_2(top, top_right) as i32)
}

/// Predicts pixel (`x`, `y`) from its right, top, top-left and top-right
/// neighbours.
pub fn predict_right(data: &FrameData, x: usize, y: usize) -> (r: i16)
    requires
        data.wf(),
        x < data@.width,
        y < data@.height,
    ensures
        r == predict_right_spec(*data, x as int, y as int),
{
    let right = if x == data.width() - 1 {
        if y == 0 { 0 } else { pixel(data, x, y - 1) }
    } else {
        pixel(data, x + 1, y)
    };
    let top = if y == 0 { 0 } else { pixel(data, x, y - 1) };
    let top_left = if y == 0 || x == 0 { right } else { pixel(data, x - 1, y - 1) };
    let top_right = if x == data.width() - 1 || y == 0 { top } else { pixel(data, x + 1, y - 1) };
    average_2(average_2(right, top_left) as i32, average_2(top, top_right) as i32)
}

} // verus!
