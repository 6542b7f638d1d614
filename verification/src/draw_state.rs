use vstd::prelude::*;

use crate::parser::Size;
use crate::pixels::{argb_bytes, Color, Pixels};

verus! {

/// Draws a ramp of `size` whose first column is `x`: a box of `size.w` columns
/// and `size.h` rows of `fg` on the bottom edge of the buffer, with `bg` above
/// it in the same columns. Columns outside the buffer are left out.
pub fn draw_ramp(pixels: &mut Pixels, x: u32, size: Size, fg: Color, bg: Color)
    requires
        size.h <= old(pixels)@.height(),
    ensures
        final(pixels)@.width == old(pixels)@.width,
        final(pixels).file() == old(pixels).file(),
        final(pixels)@.bytes.len() == old(pixels)@.bytes.len(),
        forall|i: int|
            0 <= i < old(pixels)@.bytes.len() ==> #[trigger] final(pixels)@.bytes[i] == if x
                <= old(pixels)@.column(i) < x + size.w {
                if old(pixels)@.row(i) < old(pixels)@.height() - size.h {
                    argb_bytes(bg)[i % 4]
                } else {
                    argb_bytes(fg)[i % 4]
                }
            } else {
                old(pixels)@.bytes[i]
            },
{
    let ghost v = pixels@;
    let height = pixels.height();
    let top = height - size.h;
    pixels.fill_rect(x, 0, size.w, top, bg);
    pixels.fill_rect(x, top, size.w, size.h, fg);
    proof {
        assert forall|i: int| 0 <= i < v.bytes.len() implies #[trigger] pixels@.bytes[i] == if x
            <= v.column(i) < x + size.w {
            if v.row(i) < v.height() - size.h {
                argb_bytes(bg)[i % 4]
            } else {
                argb_bytes(fg)[i % 4]
            }
        } else {
            v.bytes[i]
        } by {
            crate::pixels::lemma_byte_in_bounds(v, i);
        }
    }
}

} // verus!
