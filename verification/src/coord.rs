//! Grid coordinates and their row-major linear index.

use vstd::prelude::*;

verus! {

/// A cell position: column `x`, row `y`.
#[derive(Clone, Copy, Debug, PartialEq, Eq, Structural)]
pub struct Coord {
    pub x: u32,
    pub y: u32,
}

/// Whether `c` names a cell of a grid of the given dimensions.
pub open spec fn in_range(c: Coord, width: int, height: int) -> bool {
    c.x < width && c.y < height
}

/// The row-major linear index of `c` in a grid of the given width.
pub open spec fn flatten(c: Coord, width: int) -> int {
    c.y * width + c.x
}

/// The position whose row-major linear index is `i`, for a positive width.
pub open spec fn unflatten(i: int, width: int) -> (int, int) {
    (i % width, i / width)
}

/// A linear index of an in-range position lies below `width * height`.
pub proof fn lemma_flatten_bound(c: Coord, width: int, height: int)
    requires
        in_range(c, width, height),
    ensures
        0 <= flatten(c, width) < width * height,
{
    assert(c.y * width + width <= height * width) by (nonlinear_arith)
        requires
            c.y + 1 <= height,
            0 <= width,
    ;
    assert(0 <= c.y * width) by (nonlinear_arith)
        requires
            0 <= c.y,
            0 <= width,
    ;
}

/// Within one grid, two in-range positions with the same linear index are
/// the same position.
pub proof fn lemma_flatten_injective(a: Coord, b: Coord, width: int, height: int)
    requires
        in_range(a, width, height),
        in_range(b, width, height),
        flatten(a, width) == flatten(b, width),
    ensures
        a == b,
{
    lemma_unflatten_flatten(a, width);
    lemma_unflatten_flatten(b, width);
}

/// `unflatten` undoes `flatten` on every position whose column is below the
/// width.
pub proof fn lemma_unflatten_flatten(c: Coord, width: int)
    requires
        c.x < width,
    ensures
        unflatten(flatten(c, width), width) == (c.x as int, c.y as int),
{
    vstd::arithmetic::div_mod::lemma_fundamental_div_mod_converse(
        flatten(c, width),
        width,
        c.y as int,
        c.x as int,
    );
}

/// `flatten` undoes `unflatten` on every index below `width * height`, and
/// the position it gives is in range.
pub proof fn lemma_flatten_unflatten(i: int, width: int, height: int)
    requires
        0 <= i < width * height,
        0 < width,
    ensures
        0 <= unflatten(i, width).0 < width,
        0 <= unflatten(i, width).1 < height,
        unflatten(i, width).1 * width + unflatten(i, width).0 == i,
{
    vstd::arithmetic::div_mod::lemma_fundamental_div_mod(i, width);
    vstd::arithmetic::div_mod::lemma_mod_bound(i, width);
    vstd::arithmetic::div_mod::lemma_div_pos_is_pos(i, width);
    let q = i / width;
    assert(q < height) by (nonlinear_arith)
        requires
            0 <= i < width * height,
            0 < width,
            i == width * q + i % width,
            0 <= i % width,
    ;
    assert(width * q == q * width) by (nonlinear_arith);
}

/// Computes the row-major linear index of `index`.
pub fn flatten_index(index: Coord, width: u32) -> (flat: usize)
    requires
        flatten(index, width as int) <= usize::MAX,
    ensures
        flat == flatten(index, width as int),
{
    assert(0 <= index.y * width) by (nonlinear_arith)
        requires
            0 <= index.y,
            0 <= width,
    ;
    index.y as usize * width as usize + index.x as usize
}

} // verus!
