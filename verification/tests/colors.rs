use bmp_canvas::Color;

#[test]
fn from_argb_packs_alpha_red_green_blue_from_the_top_byte_down() {
    assert_eq!(Color::from_argb(0x12, 0x34, 0x56, 0x78), 0x1234_5678);
    assert_eq!(Color::from_argb(0, 0, 0, 0), 0);
    assert_eq!(Color::from_argb(255, 255, 255, 255), 0xFFFF_FFFF);
    assert_eq!(Color::from_argb(1, 0, 0, 0), 0x0100_0000);
    assert_eq!(Color::from_argb(0, 1, 0, 0), 0x0001_0000);
    assert_eq!(Color::from_argb(0, 0, 1, 0), 0x0000_0100);
    assert_eq!(Color::from_argb(0, 0, 0, 1), 0x0000_0001);
}

#[test]
fn channels_of_a_packed_color_are_the_channels_it_was_built_from() {
    let samples: [u8; 9] = [0, 1, 2, 0x0F, 0x7F, 0x80, 0xAA, 0xFE, 0xFF];
    for &a in samples.iter() {
        for &r in samples.iter() {
            for &g in samples.iter() {
                for &b in samples.iter() {
                    let c = Color::from_argb(a, r, g, b);
                    assert_eq!(Color::alpha(c), a);
                    assert_eq!(Color::red(c), r);
                    assert_eq!(Color::green(c), g);
                    assert_eq!(Color::blue(c), b);
                }
            }
        }
    }
}

#[test]
fn packing_the_channels_of_a_color_gives_the_color_back() {
    let samples: [u32; 6] = [0, 1, 0x1234_5678, 0x8000_0000, 0xDEAD_BEEF, 0xFFFF_FFFF];
    for &c in samples.iter() {
        let again =
            Color::from_argb(Color::alpha(c), Color::red(c), Color::green(c), Color::blue(c));
        assert_eq!(again, c);
    }
}

#[test]
fn from_rgb_is_from_argb_with_full_alpha() {
    let samples: [u8; 7] = [0, 1, 0x33, 0x7F, 0x80, 0xC4, 0xFF];
    for &r in samples.iter() {
        for &g in samples.iter() {
            for &b in samples.iter() {
                assert_eq!(Color::from_rgb(r, g, b), Color::from_argb(255, r, g, b));
            }
        }
    }
    assert_eq!(Color::from_rgb(0x10, 0x20, 0x30), 0xFF10_2030);
}

#[test]
fn named_colors_have_their_fixed_values() {
    assert_eq!(Color::WHITE, 0xFFFF_FFFF);
    assert_eq!(Color::BLACK, 0xFF00_0000);
    assert_eq!(Color::RED, 0xFFFF_0000);
    assert_eq!(Color::GREEN, 0xFF00_FF00);
    assert_eq!(Color::BLUE, 0xFF00_00FF);
    assert_eq!(Color::TRANSPARENT, 0x0000_0000);
}

#[test]
fn named_colors_are_what_the_encoder_gives_for_their_channels() {
    assert_eq!(Color::WHITE, Color::from_argb(255, 255, 255, 255));
    assert_eq!(Color::BLACK, Color::from_rgb(0, 0, 0));
    assert_eq!(Color::RED, Color::from_rgb(255, 0, 0));
    assert_eq!(Color::GREEN, Color::from_rgb(0, 255, 0));
    assert_eq!(Color::BLUE, Color::from_rgb(0, 0, 255));
    assert_eq!(Color::TRANSPARENT, Color::from_argb(0, 0, 0, 0));
}
