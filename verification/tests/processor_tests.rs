use hyprhue::processor::calculate_colors;

fn frame(width: u32, height: u32, pixel: impl Fn(u32, u32) -> (u8, u8, u8)) -> Vec<u8> {
    let mut data = Vec::new();
    for y in 0..height {
        for x in 0..width {
            let (r, g, b) = pixel(x, y);
            data.extend_from_slice(&[b, g, r, 255]);
        }
    }
    data
}

#[test]
fn uniform_frame_gives_its_colour_on_both_sides() {
    let data = frame(40, 20, |_, _| (200, 20, 10));
    let (left, right) = calculate_colors(&data, 40, 20, 160);
    assert_eq!(left, (200, 20, 10));
    assert_eq!(right, (200, 20, 10));
}

#[test]
fn black_frame_gives_black() {
    let data = frame(40, 20, |_, _| (0, 0, 0));
    assert_eq!(calculate_colors(&data, 40, 20, 160), ((0, 0, 0), (0, 0, 0)));
}

#[test]
fn empty_buffer_gives_black() {
    assert_eq!(calculate_colors(&[], 1920, 1080, 7680), ((0, 0, 0), (0, 0, 0)));
}

#[test]
fn mean_of_squares_is_rooted() {
    // Left quarter of an 80-pixel-wide frame holds columns 0 and 10: pure red and pure
    // blue, both of weight 255 + 255 * 255; the weighted mean of red squared is
    // 255 * 255 / 2 = 32512, whose root rounds down to 180.
    let data = frame(80, 1, |x, _| if x == 0 { (255, 0, 0) } else if x == 10 { (0, 0, 255) } else { (0, 0, 0) });
    let (left, right) = calculate_colors(&data, 80, 1, 320);
    assert_eq!(left, (180, 0, 180));
    assert_eq!(right, (0, 0, 0));
}

#[test]
fn saturated_pixels_outweigh_grey_ones() {
    // Column 0 is grey (100, 100, 100), weight 300; column 10 is pure green, weight
    // 255 + 65025 = 65280. Red: 100 * 100 * 300 / 65580 = 45, root 6.
    // Green: (100 * 100 * 300 + 255 * 255 * 65280) / 65580 = 64773, root 254.
    let data = frame(80, 1, |x, _| if x == 0 { (100, 100, 100) } else if x == 10 { (0, 255, 0) } else { (0, 0, 0) });
    let (left, _) = calculate_colors(&data, 80, 1, 320);
    assert_eq!(left, (6, 254, 6));
}

#[test]
fn only_every_tenth_pixel_counts() {
    let data = frame(80, 20, |x, y| if x % 10 == 0 && y % 10 == 0 { (0, 0, 200) } else { (255, 255, 0) });
    let (left, right) = calculate_colors(&data, 80, 20, 320);
    assert_eq!(left, (0, 0, 200));
    assert_eq!(right, (0, 0, 200));
}

#[test]
fn middle_band_does_not_count() {
    let plain = frame(80, 10, |x, _| if x < 20 { (10, 200, 10) } else if x >= 60 { (200, 10, 10) } else { (0, 0, 0) });
    let busy = frame(80, 10, |x, _| if x < 20 { (10, 200, 10) } else if x >= 60 { (200, 10, 10) } else { (1, 2, 250) });
    assert_eq!(calculate_colors(&plain, 80, 10, 320), calculate_colors(&busy, 80, 10, 320));
    assert_eq!(calculate_colors(&plain, 80, 10, 320), ((10, 200, 10), (200, 10, 10)));
}

#[test]
fn one_pixel_wide_frame_is_all_right_side() {
    let data = frame(1, 1, |_, _| (7, 8, 9));
    assert_eq!(calculate_colors(&data, 1, 1, 4), ((0, 0, 0), (7, 8, 9)));
}

#[test]
fn pixels_past_the_buffer_are_skipped() {
    // Declares 20 rows of 40 pixels but holds only the first row.
    let data = frame(40, 1, |_, _| (30, 40, 50));
    assert_eq!(calculate_colors(&data, 40, 20, 160), ((30, 40, 50), (30, 40, 50)));
}

#[test]
fn mixed_region_colour_lies_within_its_pixels() {
    // Left quarter columns 0 and 10: (40, 100, 220) and (200, 60, 20); column 20 is outside.
    let data = frame(80, 1, |x, _| if x == 0 { (40, 100, 220) } else if x == 10 { (200, 60, 20) } else { (9, 9, 9) });
    let (left, _) = calculate_colors(&data, 80, 1, 320);
    assert!(40 <= left.0 && left.0 <= 200);
    assert!(60 <= left.1 && left.1 <= 100);
    assert!(20 <= left.2 && left.2 <= 220);
}

#[test]
fn exchanging_red_and_blue_exchanges_them_in_the_colours() {
    let pick = |x: u32, y: u32| ((x * 7 + y * 3) as u8, (x * 5) as u8, (255 - x) as u8);
    let data = frame(80, 20, pick);
    let swapped = frame(80, 20, |x, y| {
        let (r, g, b) = pick(x, y);
        (b, g, r)
    });
    let (l, r) = calculate_colors(&data, 80, 20, 320);
    let (l2, r2) = calculate_colors(&swapped, 80, 20, 320);
    assert_eq!(l2, (l.2, l.1, l.0));
    assert_eq!(r2, (r.2, r.1, r.0));
}
