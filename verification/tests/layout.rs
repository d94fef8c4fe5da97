use game2048::layout::calc_rectangle_position;
use game2048::layout::calc_tiles_background_rectangle;

#[test]
fn rectangle_position_low_density() {
    // Squares of 80 with 10 gaps in an 800 wide canvas: the field is 350
    // wide and starts at 225.
    assert_eq!(calc_rectangle_position(0, 0, 800, false), (225, 70));
    assert_eq!(calc_rectangle_position(1, 2, 800, false), (315, 250));
    assert_eq!(calc_rectangle_position(3, 3, 800, false), (495, 340));
}

#[test]
fn rectangle_position_high_density() {
    // Squares of 160 with 16 gaps in a 1600 wide canvas: the field is 688
    // wide and starts at 456.
    assert_eq!(calc_rectangle_position(0, 0, 1600, true), (456, 160));
    assert_eq!(calc_rectangle_position(2, 1, 1600, true), (808, 336));
}

#[test]
fn background_rectangle_sits_one_margin_out() {
    assert_eq!(calc_tiles_background_rectangle(800, false), (215, 60, 370));
    assert_eq!(calc_tiles_background_rectangle(1600, true), (440, 144, 720));
}
