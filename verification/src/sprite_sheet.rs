use vstd::prelude::*;

verus! {

/// The number of tile columns of a sheet `canvas_width` pixels wide, with
/// the width taken as a `u32` as the sheet reader does.
pub open spec fn columns(canvas_width: i32, tile_width: u32) -> int {
    ((canvas_width as u32) / tile_width) as int
}

/// The cell of frame `frame` on a sprite sheet: its column and row of
/// tiles, counted row by row. A frame at or past `canvas_width *
/// canvas_height` (the frame number taken as an `i32`) is out of bounds:
/// there is none.
pub fn frame_cell(frame: u32, canvas_width: i32, canvas_height: i32, tile_width: u32) -> (r: Option<(u32, u32)>)
    requires
        i32::MIN <= canvas_width * canvas_height <= i32::MAX,
        (frame as i32) < canvas_width * canvas_height ==> tile_width > 0 && columns(canvas_width, tile_width) > 0,
    ensures
        (frame as i32) >= canvas_width * canvas_height ==> r is None,
        (frame as i32) < canvas_width * canvas_height ==> r == Some(
            ((frame as int % columns(canvas_width, tile_width)) as u32, (frame as int / columns(canvas_width, tile_width)) as u32),
        ),
{
    if frame as i32 >= canvas_width * canvas_height {
        return None;
    }
    let width = canvas_width as u32 / tile_width;
    Some((frame % width, frame / width))
}

} // verus!
