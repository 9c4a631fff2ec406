use simple_machine::image::{draw_frame, Rgb, FRAME_SIDE};

fn at(f: &simple_machine::image::Frame, px: u32, py: u32) -> Rgb {
    f.pixels[(py * FRAME_SIDE + px) as usize]
}

#[test]
fn empty_map_renders_white() {
    let f = draw_frame(&vec![]);
    assert_eq!(FRAME_SIDE, f.width);
    assert_eq!(FRAME_SIDE, f.height);
    assert_eq!((FRAME_SIDE * FRAME_SIDE) as usize, f.pixels.len());
    assert_eq!(Rgb { r: 0xFF, g: 0xFF, b: 0xFF }, at(&f, 0, 0));
    assert_eq!(Rgb { r: 0xFF, g: 0xFF, b: 0xFF }, at(&f, 912, 912));
}

#[test]
fn one_entry_draws_a_ringed_cell() {
    // coordinate (10, 20): cell pixels start at (3 * 14, 3 * 24)
    let f = draw_frame(&vec![((10, 20, 0), 3)]);
    let x0 = 3 * (10 + 4);
    let y0 = 3 * (20 + 4);
    // the center carries the palette color of class 3
    assert_eq!(Rgb { r: 0x12, g: 0x12, b: 0xCC }, at(&f, x0 + 1, y0 + 1));
    // the ring is black
    assert_eq!(Rgb { r: 0, g: 0, b: 0 }, at(&f, x0, y0));
    assert_eq!(Rgb { r: 0, g: 0, b: 0 }, at(&f, x0 + 2, y0 + 2));
    // the neighbor cell stays white
    assert_eq!(Rgb { r: 0xFF, g: 0xFF, b: 0xFF }, at(&f, x0 + 3, y0));
}

#[test]
fn later_entries_overwrite_earlier_ones() {
    let f = draw_frame(&vec![((5, 5, 0), 0), ((5, 5, 1), 4)]);
    let x0 = 3 * (5 + 4);
    let y0 = 3 * (5 + 4);
    assert_eq!(Rgb { r: 0xCC, g: 0x12, b: 0x12 }, at(&f, x0 + 1, y0 + 1));
}

#[test]
fn out_of_viewport_entries_are_ignored() {
    let f = draw_frame(&vec![((-1, 0, 0), 1), ((600, 0, 0), 1), ((0, 600, 0), 1)]);
    for px in 0..24 {
        for py in 0..24 {
            assert_eq!(Rgb { r: 0xFF, g: 0xFF, b: 0xFF }, at(&f, px, py));
        }
    }
}

#[test]
fn unknown_color_classes_fall_back_to_grey() {
    let f = draw_frame(&vec![((0, 0, 0), 77)]);
    assert_eq!(Rgb { r: 0xDD, g: 0xDD, b: 0xDD }, at(&f, 13, 13));
}
