//! The framebuffer: where a pixel's bytes lie, and the writing of one pixel.
//!
//! The screen is stored turned on its side: column by column from left to
//! right, each column from the bottom up, three bytes to a pixel in the
//! order blue, green, red.

use vstd::prelude::*;

verus! {

/// The index of the first byte of the pixel at column `x`, row `y` of a
/// screen `height` pixels high.
pub open spec fn offset_of(x: int, y: int, height: int) -> int {
    3 * (x * height + (height - 1 - y))
}

/// Whether the point lies on a screen of `width` by `height` pixels.
pub open spec fn on_screen(x: int, y: int, width: int, height: int) -> bool {
    0 <= x < width && 0 <= y < height
}

/// Every pixel on the screen has its three bytes inside the framebuffer.
pub proof fn lemma_offset_in_bounds(x: int, y: int, width: int, height: int)
    requires
        on_screen(x, y, width, height),
    ensures
        0 <= offset_of(x, y, height),
        offset_of(x, y, height) + 3 <= 3 * width * height,
{
    assert(x * height + height <= width * height) by (nonlinear_arith)
        requires
            0 <= x < width,
            0 < height,
    ;
    assert(0 <= x * height) by (nonlinear_arith)
        requires
            0 <= x,
            0 < height,
    ;
    assert(3 * width * height == 3 * (width * height)) by (nonlinear_arith);
}

/// Two different pixels on the screen do not share a byte.
pub proof fn lemma_offsets_apart(x: int, y: int, u: int, v: int, width: int, height: int)
    requires
        on_screen(x, y, width, height),
        on_screen(u, v, width, height),
        (x, y) != (u, v),
    ensures
        offset_of(x, y, height) + 3 <= offset_of(u, v, height) || offset_of(u, v, height) + 3
            <= offset_of(x, y, height),
{
    if x < u {
        assert(x * height + height <= u * height) by (nonlinear_arith)
            requires
                x < u,
                0 < height,
        ;
    } else if u < x {
        assert(u * height + height <= x * height) by (nonlinear_arith)
            requires
                u < x,
                0 < height,
        ;
    }
}

/// Where the bytes of the pixel at (`x`, `y`) begin in the framebuffer of a
/// screen of `width` by `height` pixels, or `None` for a point off the
/// screen.
pub fn pixel_offset(x: i32, y: i32, width: u32, height: u32) -> (offset: Option<usize>)
    requires
        3 * width * height <= usize::MAX,
    ensures
        match offset {
            Some(i) => on_screen(x as int, y as int, width as int, height as int) && i
                == offset_of(x as int, y as int, height as int) && i + 3 <= 3 * width * height,
            None => !on_screen(x as int, y as int, width as int, height as int),
        },
{
    if x < 0 || y < 0 {
        return None;
    }
    let column: u32 = x as u32;
    let row: u32 = y as u32;
    if column >= width || row >= height {
        return None;
    }
    proof {
        lemma_offset_in_bounds(x as int, y as int, width as int, height as int);
        assert(0 <= column * height) by (nonlinear_arith)
            requires
                0 <= column,
                0 < height,
        ;
    }
    let up: usize = (height - 1 - row) as usize;
    let across: usize = (column as usize) * (height as usize);
    Some(3 * (across + up))
}

/// The framebuffer with the pixel that begins at `offset` set to the given
/// colour.
pub open spec fn painted(framebuffer: Seq<u8>, offset: int, red: u8, green: u8, blue: u8) -> Seq<
    u8,
> {
    framebuffer.update(offset, blue).update(offset + 1, green).update(offset + 2, red)
}

/// Sets the pixel at (`x`, `y`) to the given colour. A point off the screen
/// leaves the framebuffer as it is.
pub fn put_pixel(
    framebuffer: &mut [u8],
    x: i32,
    y: i32,
    width: u32,
    height: u32,
    red: u8,
    green: u8,
    blue: u8,
)
    requires
        old(framebuffer).len() == 3 * width * height,
    ensures
        final(framebuffer)@ == if on_screen(x as int, y as int, width as int, height as int) {
            painted(
                old(framebuffer)@,
                offset_of(x as int, y as int, height as int),
                red,
                green,
                blue,
            )
        } else {
            old(framebuffer)@
        },
{
    match pixel_offset(x, y, width, height) {
        Some(offset) => {
            framebuffer[offset] = blue;
            framebuffer[offset + 1] = green;
            framebuffer[offset + 2] = red;
        },
        None => {},
    }
}

} // verus!
