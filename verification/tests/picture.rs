use glens::pic::{Color, Picture};
use glens::scalar::Scalar;

fn scalar(value: f32) -> Scalar {
    Scalar::from_bits(value.to_bits())
}

fn color(r: f32, g: f32, b: f32) -> Color {
    Color(scalar(r), scalar(g), scalar(b))
}

/// The level that the hardware gives.
fn hardware_level(bits: u32) -> u8 {
    (f32::from_bits(bits) * 255.0) as u8
}

/// Reads plain text back: width, height, the largest level and the levels.
fn parse(text: &str) -> (usize, usize, usize, Vec<(u8, u8, u8)>) {
    let mut lines = text.lines();
    assert_eq!(lines.next(), Some("P3"));
    let sizes: Vec<usize> =
        lines.next().unwrap().split(' ').map(|part| part.parse().unwrap()).collect();
    assert_eq!(sizes.len(), 2);
    let largest: usize = lines.next().unwrap().parse().unwrap();
    let mut levels = Vec::new();
    for line in lines {
        let parts: Vec<u8> = line.split(' ').map(|part| part.parse().unwrap()).collect();
        assert_eq!(parts.len(), 3);
        levels.push((parts[0], parts[1], parts[2]));
    }
    (sizes[0], sizes[1], largest, levels)
}

#[test]
fn position_goes_row_by_row() {
    let (width, height) = (3usize, 2usize);
    let expected = [(0, 0), (1, 0), (2, 0), (0, 1), (1, 1), (2, 1)];
    for index in 0..width * height {
        assert_eq!(Picture::position(width, height, index), expected[index]);
    }
    assert_eq!(Picture::position(960, 540, 0), (0, 0));
    assert_eq!(Picture::position(960, 540, 959), (959, 0));
    assert_eq!(Picture::position(960, 540, 960), (0, 1));
    assert_eq!(Picture::position(960, 540, 518_399), (959, 539));
    assert_eq!(Picture::position(1, 7, 6), (0, 6));
    assert_eq!(Picture::position(7, 1, 6), (6, 0));
}

#[test]
fn position_and_index_are_inverse() {
    let (width, height) = (17usize, 5usize);
    for y in 0..height {
        for x in 0..width {
            assert_eq!(Picture::position(width, height, y * width + x), (x, y));
        }
    }
}

#[test]
fn picture_takes_one_pixel_for_each_place() {
    let red = color(1.0, 0.0, 0.0);
    let made = Picture::new(3, 2, vec![red; 6]).unwrap();
    assert_eq!(made.dimensions, (3, 2));
    assert_eq!(made.pixels, vec![red; 6]);
    assert!(Picture::new(3, 2, vec![red; 5]).is_none());
    assert!(Picture::new(3, 2, vec![red; 7]).is_none());
    assert!(Picture::new(3, 2, vec![]).is_none());
    assert!(Picture::new(2, 3, vec![red; 6]).is_some());
}

#[test]
fn picture_without_places_has_no_pixels() {
    assert!(Picture::new(0, 0, vec![]).is_some());
    assert!(Picture::new(0, 9, vec![]).is_some());
    assert!(Picture::new(9, 0, vec![]).is_some());
    assert!(Picture::new(0, 9, vec![color(0.0, 0.0, 0.0)]).is_none());
}

#[test]
fn picture_larger_than_memory_is_refused() {
    assert!(Picture::new(usize::MAX, 2, vec![]).is_none());
    assert!(Picture::new(usize::MAX, usize::MAX, vec![color(0.0, 0.0, 0.0)]).is_none());
    assert!(Picture::new(usize::MAX / 2 + 1, 2, vec![]).is_none());
}

#[test]
fn picture_keeps_the_order_of_its_pixels() {
    let pixels: Vec<Color> = (0..6).map(|i| color(i as f32 / 8.0, 0.0, 1.0)).collect();
    let made = Picture::new(3, 2, pixels.clone()).unwrap();
    for y in 0..2 {
        for x in 0..3 {
            assert_eq!(made.pixels[y * 3 + x], pixels[y * 3 + x]);
            assert_eq!(made.pixels[y * 3 + x].0, scalar((y * 3 + x) as f32 / 8.0));
        }
    }
}

#[test]
fn text_of_a_small_picture() {
    let pixels = vec![color(1.0, 0.0, 0.0), color(0.0, 0.5, 1.0)];
    let made = Picture::new(2, 1, pixels).unwrap();
    assert_eq!(made.write(), "P3\n2 1\n255\n255 0 0\n0 127 255\n");
}

#[test]
fn text_of_a_picture_without_pixels() {
    assert_eq!(Picture::new(0, 0, vec![]).unwrap().write(), "P3\n0 0\n255\n");
    assert_eq!(Picture::new(0, 10, vec![]).unwrap().write(), "P3\n0 10\n255\n");
}

#[test]
fn text_has_sizes_of_several_digits() {
    let made = Picture::new(12, 105, vec![color(0.0, 0.0, 0.0); 1260]).unwrap();
    let text = made.write();
    assert!(text.starts_with("P3\n12 105\n255\n0 0 0\n"));
    assert_eq!(text.lines().count(), 3 + 1260);
}

#[test]
fn text_states_the_dimensions_as_they_are_given() {
    // the text is written from the fields as they stand
    let odd = Picture { pixels: vec![color(0.2, 0.4, 0.6)], dimensions: (1000, 20) };
    assert_eq!(odd.write(), "P3\n1000 20\n255\n51 102 153\n");
}

#[test]
fn text_of_one_colour_reads_back() {
    let made = Picture::new(4, 3, vec![color(1.0, 0.0, 0.0); 12]).unwrap();
    let (width, height, largest, levels) = parse(&made.write());
    assert_eq!((width, height, largest), (4, 3, 255));
    assert_eq!(levels, vec![(255, 0, 0); 12]);
}

#[test]
fn text_of_many_colours_reads_back() {
    let pixels: Vec<Color> =
        (0..256).map(|i| color(i as f32 / 255.0, (255 - i) as f32 / 255.0, 0.5)).collect();
    let made = Picture::new(16, 16, pixels.clone()).unwrap();
    let (width, height, largest, levels) = parse(&made.write());
    assert_eq!((width, height, largest), (16, 16, 255));
    assert_eq!(levels.len(), 256);
    for (pixel, read) in pixels.iter().zip(levels) {
        assert_eq!(read.0, hardware_level(pixel.0.bits));
        assert_eq!(read.1, hardware_level(pixel.1.bits));
        assert_eq!(read.2, 127);
    }
}

#[test]
fn level_of_chosen_channels() {
    assert_eq!(Color::level(scalar(0.0)), 0);
    assert_eq!(Color::level(scalar(1.0)), 255);
    assert_eq!(Color::level(scalar(0.5)), 127);
    assert_eq!(Color::level(scalar(0.25)), 63);
    assert_eq!(Color::level(scalar(0.1)), 25);
    assert_eq!(Color::level(scalar(0.2)), 51);
    assert_eq!(Color::level(scalar(0.6)), 153);
    assert_eq!(Color::level(scalar(0.8)), 204);
    assert_eq!(Color::level(scalar(1.0 / 255.0)), 1);
    assert_eq!(Color::level(scalar(0.003_9)), 0);
    assert_eq!(Color::level(scalar(0.999_999_94)), 254);
}

#[test]
fn level_is_held_between_0_and_255() {
    assert_eq!(Color::level(scalar(1.000_000_1)), 255);
    assert_eq!(Color::level(scalar(2.0)), 255);
    assert_eq!(Color::level(scalar(1.0e30)), 255);
    assert_eq!(Color::level(scalar(f32::MAX)), 255);
    assert_eq!(Color::level(scalar(f32::INFINITY)), 255);
    assert_eq!(Color::level(scalar(-0.0)), 0);
    assert_eq!(Color::level(scalar(-0.3)), 0);
    assert_eq!(Color::level(scalar(-7.0)), 0);
    assert_eq!(Color::level(scalar(f32::NEG_INFINITY)), 0);
    assert_eq!(Color::level(scalar(f32::NAN)), 0);
    assert_eq!(Color::level(scalar(-f32::NAN)), 0);
    assert_eq!(Color::level(scalar(1.0e-40)), 0);
    assert_eq!(Color::level(scalar(f32::MIN_POSITIVE)), 0);
}

#[test]
fn level_rounds_the_product_as_the_hardware_does() {
    // channels whose product with 255 lies next to a whole number
    for k in 0..=256u32 {
        let near = (k as f32 / 255.0).to_bits();
        for bits in near.saturating_sub(40)..=near + 40 {
            let level = Color::level(Scalar::from_bits(bits));
            assert_eq!(level, hardware_level(bits), "{:#010x}", bits);
        }
    }
}

#[test]
fn level_agrees_with_hardware_on_every_kind_of_number() {
    for exponent in 0..=255u32 {
        let mut fraction = 0u32;
        let mut seed = 0x2545_f491u32.wrapping_mul(exponent + 1);
        for round in 0..2000 {
            for sign in [0u32, 0x8000_0000] {
                let bits = sign | (exponent << 23) | fraction;
                let level = Color::level(Scalar::from_bits(bits));
            assert_eq!(level, hardware_level(bits), "{:#010x}", bits);
            }
            seed = seed.wrapping_mul(1_664_525).wrapping_add(1_013_904_223);
            fraction = match round {
                0 => 1,
                1 => 0x007f_ffff,
                2 => 0x0040_0000,
                _ => seed >> 9,
            };
        }
    }
}

#[test]
fn level_agrees_with_hardware_below_one() {
    // every 97th number from two to the power -9 up to 1
    let mut bits = 0x3b00_0000u32;
    while bits <= 0x3f80_0000 {
        assert_eq!(Color::level(Scalar::from_bits(bits)), hardware_level(bits), "{:#010x}", bits);
        bits += 97;
    }
}
