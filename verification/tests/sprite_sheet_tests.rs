use mursten::sprite_sheet::frame_cell;

#[test]
fn frames_are_counted_row_by_row() {
    // A sheet of 64 by 32 pixels in tiles of 16: four columns.
    assert_eq!(frame_cell(0, 64, 32, 16), Some((0, 0)));
    assert_eq!(frame_cell(3, 64, 32, 16), Some((3, 0)));
    assert_eq!(frame_cell(5, 64, 32, 16), Some((1, 1)));
}

#[test]
fn frames_past_the_sheet_are_out_of_bounds() {
    assert_eq!(frame_cell(2048, 64, 32, 16), None);
    assert_eq!(frame_cell(4000, 64, 32, 16), None);
    // A frame number that reads as a negative `i32` passes the bound, as in the sheet reader.
    assert_eq!(frame_cell(u32::MAX, 64, 32, 16), Some((u32::MAX % 4, u32::MAX / 4)));
}
