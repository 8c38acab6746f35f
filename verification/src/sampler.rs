//! Reading a grid between its cells: two blends along the rows, then one
//! across them.

use crate::coord::Coord;
use crate::grid::Grid;
use vstd::prelude::*;

verus! {

/// Whether `out` can come of blending four corner values: `lerp` blends the
/// two upper corners at `tx`, the two lower corners at `tx`, and then the
/// two results at `ty`.
pub open spec fn bilinear<T, W, L: Fn(T, T, W) -> T>(
    c00: T,
    c10: T,
    c01: T,
    c11: T,
    tx: W,
    ty: W,
    lerp: L,
    out: T,
) -> bool {
    exists|top: T, bottom: T|
        call_ensures(lerp, (c00, c10, tx), top) && call_ensures(lerp, (c01, c11, tx), bottom)
            && #[trigger] call_ensures(lerp, (top, bottom, ty), out)
}

/// Where blending at `zero` gives the first of the two values back, a
/// bilinear blend at `zero` along both axes gives the first corner back.
pub proof fn lemma_bilinear_at_corner<T, W, L: Fn(T, T, W) -> T>(
    c00: T,
    c10: T,
    c01: T,
    c11: T,
    zero: W,
    lerp: L,
    out: T,
)
    requires
        bilinear(c00, c10, c01, c11, zero, zero, lerp, out),
        forall|a: T, b: T, r: T| #[trigger] call_ensures(lerp, (a, b, zero), r) ==> r == a,
    ensures
        out == c00,
{
}

impl<T: Copy> Grid<T> {
    /// The value between the four cells whose upper left corner is
    /// `corner`, at the fractions `tx` and `ty` of the way to the next
    /// column and row. The cell diagonally after `corner` must lie inside
    /// the grid.
    pub fn sample<W: Copy, L: Fn(T, T, W) -> T>(&self, corner: Coord, tx: W, ty: W, lerp: L) -> (out:
        T)
        requires
            self.wf(),
            corner.x + 1 < self.spec_width(),
            corner.y + 1 < self.spec_height(),
            call_requires(
                lerp,
                (self.at(corner), self.at(Coord { x: (corner.x + 1) as u32, y: corner.y }), tx),
            ),
            call_requires(
                lerp,
                (
                    self.at(Coord { x: corner.x, y: (corner.y + 1) as u32 }),
                    self.at(Coord { x: (corner.x + 1) as u32, y: (corner.y + 1) as u32 }),
                    tx,
                ),
            ),
            forall|top: T, bottom: T|
                call_ensures(
                    lerp,
                    (
                        self.at(corner),
                        self.at(Coord { x: (corner.x + 1) as u32, y: corner.y }),
                        tx,
                    ),
                    top,
                ) && call_ensures(
                    lerp,
                    (
                        self.at(Coord { x: corner.x, y: (corner.y + 1) as u32 }),
                        self.at(Coord { x: (corner.x + 1) as u32, y: (corner.y + 1) as u32 }),
                        tx,
                    ),
                    bottom,
                ) ==> #[trigger] call_requires(lerp, (top, bottom, ty)),
        ensures
            bilinear(
                self.at(corner),
                self.at(Coord { x: (corner.x + 1) as u32, y: corner.y }),
                self.at(Coord { x: corner.x, y: (corner.y + 1) as u32 }),
                self.at(Coord { x: (corner.x + 1) as u32, y: (corner.y + 1) as u32 }),
                tx,
                ty,
                lerp,
                out,
            ),
    {
        proof {
            self.lemma_wf();
        }
        let i00 = corner;
        let i11 = Coord { x: corner.x + 1, y: corner.y + 1 };
        let i01 = Coord { x: i00.x, y: i11.y };
        let i10 = Coord { x: i11.x, y: i00.y };
        let top = lerp(*self.index(i00), *self.index(i10), tx);
        let bottom = lerp(*self.index(i01), *self.index(i11), tx);
        lerp(top, bottom, ty)
    }
}

} // verus!
