use vstd::prelude::*;

use crate::pixels::{argb_bytes, Color, Pixels};

verus! {

/// The color of the example pattern at column `x` and row `y`: squares of 50
/// pixels, alternating between two colors.
pub open spec fn example_color(x: int, y: int) -> Color {
    if (x / 50 + y / 50) % 2 == 0 {
        Color { a: 0xff, r: 0x4b, g: 0x48, b: 0x47 }
    } else {
        Color { a: 0xff, r: 0x4e, g: 0x78, b: 0x37 }
    }
}

/// Paints the whole buffer with the example pattern.
pub fn draw_example(pixels: &mut Pixels)
    ensures
        final(pixels)@.width == old(pixels)@.width,
        final(pixels).file() == old(pixels).file(),
        final(pixels)@.bytes.len() == old(pixels)@.bytes.len(),
        forall|i: int|
            0 <= i < old(pixels)@.bytes.len() ==> #[trigger] final(pixels)@.bytes[i] == argb_bytes(
                example_color(old(pixels)@.column(i), old(pixels)@.row(i)),
            )[i % 4],
{
    let color1 = Color::new(0x4b, 0x48, 0x47, 0xff);
    let color2 = Color::new(0x4e, 0x78, 0x37, 0xff);
    let height = pixels.height();
    let width = pixels.width();
    let ghost v = pixels@;
    let ghost f = pixels.file();
    let mut y: u32 = 0;
    while y < height
        invariant
            v.wf(),
            width == v.width,
            height == v.height(),
            y <= height,
            pixels.file() == f,
            color1 == (Color { a: 0xff, r: 0x4b, g: 0x48, b: 0x47 }),
            color2 == (Color { a: 0xff, r: 0x4e, g: 0x78, b: 0x37 }),
            pixels@.width == v.width,
            pixels@.bytes.len() == v.bytes.len(),
            forall|i: int|
                0 <= i < v.bytes.len() ==> #[trigger] pixels@.bytes[i] == if v.row(i) < y {
                    argb_bytes(example_color(v.column(i), v.row(i)))[i % 4]
                } else {
                    v.bytes[i]
                },
        decreases height - y,
    {
        let mut x: u32 = 0;
        while x < width
            invariant
                v.wf(),
                width == v.width,
                height == v.height(),
                y < height,
                x <= width,
                pixels.file() == f,
                color1 == (Color { a: 0xff, r: 0x4b, g: 0x48, b: 0x47 }),
                color2 == (Color { a: 0xff, r: 0x4e, g: 0x78, b: 0x37 }),
                pixels@.width == v.width,
                pixels@.bytes.len() == v.bytes.len(),
                forall|i: int|
                    0 <= i < v.bytes.len() ==> #[trigger] pixels@.bytes[i] == if v.row(i) < y || (
                    v.row(i) == y && v.column(i) < x) {
                        argb_bytes(example_color(v.column(i), v.row(i)))[i % 4]
                    } else {
                        v.bytes[i]
                    },
            decreases width - x,
        {
            let sum = x / 50 + y / 50;
            let color = if sum % 2 == 0 {
                color1
            } else {
                color2
            };
            pixels.set(x, y, color);
            x = x + 1;
        }
        proof {
            assert forall|i: int| 0 <= i < v.bytes.len() implies #[trigger] pixels@.bytes[i] == if v.row(
                i,
            ) < y + 1 {
                argb_bytes(example_color(v.column(i), v.row(i)))[i % 4]
            } else {
                v.bytes[i]
            } by {
                crate::pixels::lemma_byte_in_bounds(v, i);
            }
        }
        y = y + 1;
    }
    proof {
        assert forall|i: int| 0 <= i < v.bytes.len() implies #[trigger] pixels@.bytes[i]
            == argb_bytes(example_color(v.column(i), v.row(i)))[i % 4] by {
            crate::pixels::lemma_byte_in_bounds(v, i);
        }
    }
}

} // verus!
