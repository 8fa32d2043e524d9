//! The hatch the timeline tiles a delay's gap with.

use vstd::prelude::*;

verus! {

/// The hatch is this many pixels square.
pub const HATCH_SIZE: usize = 8;

/// Each stripe of the hatch is this many pixels across.
pub const HATCH_STRIPE: usize = 2;

/// Whether the pixel at column `x`, row `y` of the hatch lies on a
/// stripe: stripes run diagonally, as wide as the gaps between them.
pub open spec fn on_stripe(x: int, y: int) -> bool {
    (x + y) % (2 * HATCH_STRIPE as int) < HATCH_STRIPE as int
}

/// The hatch's pixels, row by row, four bytes each (red, green, blue,
/// alpha): white everywhere, opaque on a stripe and transparent
/// between. Whatever draws it tints and dims it with its own colour.
pub fn hatch() -> (r: Vec<u8>)
    ensures
        r@.len() == HATCH_SIZE * HATCH_SIZE * 4,
        forall|y: int, x: int, c: int|
            0 <= y < HATCH_SIZE && 0 <= x < HATCH_SIZE && 0 <= c < 4 ==> #[trigger] r@[(y
                * HATCH_SIZE as int + x) * 4 + c] == if c < 3 || on_stripe(x, y) {
                255u8
            } else {
                0u8
            },
{
    let mut data: Vec<u8> = Vec::new();
    let mut y: usize = 0;
    while y < HATCH_SIZE
        invariant
            y <= HATCH_SIZE,
            data@.len() == y * HATCH_SIZE * 4,
            forall|yy: int, x: int, c: int|
                0 <= yy < y && 0 <= x < HATCH_SIZE && 0 <= c < 4 ==> #[trigger] data@[(yy
                    * HATCH_SIZE as int + x) * 4 + c] == if c < 3 || on_stripe(x, yy) {
                    255u8
                } else {
                    0u8
                },
        decreases HATCH_SIZE - y,
    {
        let mut x: usize = 0;
        while x < HATCH_SIZE
            invariant
                y < HATCH_SIZE,
                x <= HATCH_SIZE,
                data@.len() == (y * HATCH_SIZE + x) * 4,
                forall|yy: int, xx: int, c: int|
                    0 <= yy < HATCH_SIZE && 0 <= xx < HATCH_SIZE && 0 <= c < 4 && (yy < y || (yy
                        == y && xx < x)) ==> #[trigger] data@[(yy * HATCH_SIZE as int + xx) * 4 + c]
                        == if c < 3 || on_stripe(xx, yy) {
                        255u8
                    } else {
                        0u8
                    },
            decreases HATCH_SIZE - x,
        {
            let on = (x + y) % (HATCH_STRIPE * 2) < HATCH_STRIPE;
            let ghost prior = data@;
            data.push(255);
            data.push(255);
            data.push(255);
            data.push(if on {
                255
            } else {
                0
            });
            assert forall|yy: int, xx: int, c: int|
                0 <= yy < HATCH_SIZE && 0 <= xx < HATCH_SIZE && 0 <= c < 4 && (yy < y || (yy == y
                    && xx < x + 1)) implies #[trigger] data@[(yy * HATCH_SIZE as int + xx) * 4 + c]
                == if c < 3 || on_stripe(xx, yy) {
                255u8
            } else {
                0u8
            } by {
                let at = (yy * HATCH_SIZE as int + xx) * 4 + c;
                if yy < y || xx < x {
                    assert(at < (y * HATCH_SIZE + x) * 4) by (nonlinear_arith)
                        requires
                            yy < y || (yy == y && xx < x),
                            0 <= xx < 8,
                            0 <= c < 4,
                            at == (yy * 8 + xx) * 4 + c,
                            0 <= yy,
                    ;
                    assert(data@[at] == prior[at]);
                } else {
                    assert(at == (y * HATCH_SIZE + x) * 4 + c);
                }
            }
            x = x + 1;
        }
        y = y + 1;
    }
    data
}

} // verus!
