use sp2::color::{
    conv_8_to_neogeo, conv_argb8888_to_rgb666neogeo, conv_rgb666neogeo_to_argb8888,
    conv_to_argb8888, is_rgb666neogeo_dark, ColorMode, NG_COLOR_VALS,
};

#[test]
fn neogeo_white_and_black_decode() {
    assert_eq!(conv_rgb666neogeo_to_argb8888(0x7FFF), 0xFFFF_FFFF);
    assert_eq!(conv_rgb666neogeo_to_argb8888(0x0000), 0xFF00_0000);
}

#[test]
fn neogeo_colours_decode_per_channel() {
    assert_eq!(conv_rgb666neogeo_to_argb8888(0x5FB4), 0xFF49_B6FF);
    assert_eq!(conv_rgb666neogeo_to_argb8888(0x4F70), 0xFF00_6DFF);
    assert_eq!(conv_rgb666neogeo_to_argb8888(0x0999), 0xFF98_9898);
}

#[test]
fn neogeo_dark_bit_picks_dark_intensities() {
    assert_eq!(conv_rgb666neogeo_to_argb8888(0x8111), 0xFF0E_0E0E);
    assert_eq!(conv_rgb666neogeo_to_argb8888(0xFFFF), 0xFFFB_FBFB);
}

#[test]
fn dark_level_zero_uses_the_first_entry() {
    assert_eq!(conv_rgb666neogeo_to_argb8888(0x8000), 0xFF00_0000);
    assert_eq!(conv_rgb666neogeo_to_argb8888(0x800F), 0xFFF4_0000);
}

#[test]
fn conv_to_argb8888_decodes_neogeo_mode() {
    assert_eq!(conv_to_argb8888(ColorMode::RGB666NeoGeo(0x5FB4)), 0xFF49_B6FF);
}

#[test]
fn argb_encodes_to_neogeo() {
    assert_eq!(conv_argb8888_to_rgb666neogeo(0xFFFF_FFFF), 0x7FFF);
    assert_eq!(conv_argb8888_to_rgb666neogeo(0xFF00_0000), 0x0000);
    assert_eq!(conv_argb8888_to_rgb666neogeo(0x00FF_FFFF), 0x7FFF);
    assert_eq!(conv_argb8888_to_rgb666neogeo(0xFF12_3456), 0x7531);
    assert_eq!(conv_argb8888_to_rgb666neogeo(0xFF80_8080), 0x0888);
}

#[test]
fn intensity_quantises_to_first_entry_reaching_it() {
    assert_eq!(conv_8_to_neogeo(0), 0);
    assert_eq!(conv_8_to_neogeo(1), 2);
    assert_eq!(conv_8_to_neogeo(8), 2);
    assert_eq!(conv_8_to_neogeo(9), 4);
    assert_eq!(conv_8_to_neogeo(0x26), 10);
    assert_eq!(conv_8_to_neogeo(0x27), 12);
    assert_eq!(conv_8_to_neogeo(0xFC), 63);
    assert_eq!(conv_8_to_neogeo(0xFF), 63);
}

#[test]
fn quantised_entry_reaches_the_intensity() {
    for x in 0..=255u8 {
        let i = conv_8_to_neogeo(x);
        assert!(NG_COLOR_VALS[i] >= x);
        assert!(NG_COLOR_VALS[..i].iter().all(|v| *v < x));
    }
}

#[test]
fn dark_check_holds_only_for_ones() {
    assert!(is_rgb666neogeo_dark(1, 1, 1));
    assert!(!is_rgb666neogeo_dark(0, 0, 0));
    assert!(!is_rgb666neogeo_dark(1, 1, 0));
    assert!(!is_rgb666neogeo_dark(2, 2, 2));
    assert!(!is_rgb666neogeo_dark(1, 5, 1));
}

#[test]
fn round_trip_gives_back_the_word_without_dark_bit() {
    for c in 0..=0xFFFFu16 {
        let argb = conv_rgb666neogeo_to_argb8888(c);
        assert_eq!(argb >> 24, 0xFF);
        assert_eq!(conv_argb8888_to_rgb666neogeo(argb), c & 0x7FFF);
    }
}

#[test]
fn second_pass_through_neogeo_changes_nothing() {
    for c in [0xFF12_3456u32, 0x0080_7F01, 0xFFFF_FFFF, 0x0000_0000, 0x00C3_2A99] {
        let once = conv_argb8888_to_rgb666neogeo(c);
        let twice = conv_argb8888_to_rgb666neogeo(conv_rgb666neogeo_to_argb8888(once));
        assert_eq!(once, twice);
        assert!(once < 0x8000);
    }
}
