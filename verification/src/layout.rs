//! Pixel positions for the renderer's tile rectangles.
//!
//! The renderer draws the board as a 4x4 block of squares centred
//! horizontally in the canvas, below a top margin. On a high-density
//! screen every measure doubles. These functions only compute positions;
//! drawing stays with the caller.

use vstd::prelude::*;

verus! {

/// The side of one tile square on a high-density screen, in pixels; half
/// of it is used otherwise.
pub const SQUARE_SIZE: u32 = 160;

/// The side of one tile square, in pixels.
pub open spec fn tile_square(is_high_dpi: bool) -> int {
    if is_high_dpi {
        160
    } else {
        80
    }
}

/// The gap between neighbouring tile squares, in pixels.
pub open spec fn tile_margin(is_high_dpi: bool) -> int {
    if is_high_dpi {
        16
    } else {
        10
    }
}

/// The distance from the top of the canvas to the first row of tiles.
pub open spec fn board_top(is_high_dpi: bool) -> int {
    if is_high_dpi {
        160
    } else {
        70
    }
}

/// The width of the whole 4x4 block of tiles: four squares and the three
/// gaps between them.
pub open spec fn field_length(is_high_dpi: bool) -> int {
    4 * tile_square(is_high_dpi) + 3 * tile_margin(is_high_dpi)
}

/// The left edge of the block of tiles, centring it in the canvas.
pub open spec fn board_left(canvas_width: int, is_high_dpi: bool) -> int {
    (canvas_width - field_length(is_high_dpi)) / 2
}

/// The top-left pixel of the tile square at grid cell `(x, y)`.
pub fn calc_rectangle_position(x: u32, y: u32, canvas_width: u32, is_high_dpi: bool) -> (r: (
    u32,
    u32,
))
    requires
        x <= 3,
        y <= 3,
        canvas_width as int >= field_length(is_high_dpi),
    ensures
        r.0 as int == board_left(canvas_width as int, is_high_dpi) + x * (tile_square(is_high_dpi)
            + tile_margin(is_high_dpi)),
        r.1 as int == board_top(is_high_dpi) + y * (tile_square(is_high_dpi) + tile_margin(
            is_high_dpi,
        )),
{
    let top_margin: u32 = if is_high_dpi {
        160
    } else {
        70
    };
    let margin: u32 = if is_high_dpi {
        16
    } else {
        10
    };
    let square_size: u32 = if is_high_dpi {
        SQUARE_SIZE
    } else {
        SQUARE_SIZE / 2
    };
    let field_len: u32 = (square_size * 4) + (margin * 3);
    let left_first: u32 = (canvas_width - field_len) / 2;

    let x_output: u32 = left_first + (x * (square_size + margin));
    let y_output: u32 = top_margin + (y * (square_size + margin));

    (x_output, y_output)
}

/// The top-left pixel and the side of the backdrop square drawn behind
/// the tiles: one margin outside the block of tiles on each side.
pub fn calc_tiles_background_rectangle(canvas_width: u32, is_high_dpi: bool) -> (r: (u32, u32, u32))
    requires
        canvas_width as int >= field_length(is_high_dpi) + 2 * tile_margin(is_high_dpi),
    ensures
        r.0 as int == board_left(canvas_width as int, is_high_dpi) - tile_margin(is_high_dpi),
        r.1 as int == board_top(is_high_dpi) - tile_margin(is_high_dpi),
        r.2 as int == if is_high_dpi {
            720int
        } else {
            370int
        },
{
    let tiles_background_square_size: u32 = if is_high_dpi {
        720
    } else {
        370
    };
    let square_size: u32 = if is_high_dpi {
        SQUARE_SIZE
    } else {
        SQUARE_SIZE / 2
    };
    let margin: u32 = if is_high_dpi {
        16
    } else {
        10
    };
    let field_len: u32 = (square_size * 4) + (margin * 3);
    let top_margin: u32 = (if is_high_dpi {
        160
    } else {
        70
    }) - margin;
    let left_first: u32 = ((canvas_width - field_len) / 2) - margin;

    (left_first, top_margin, tiles_background_square_size)
}

} // verus!
