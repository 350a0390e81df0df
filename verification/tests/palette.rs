use sp2::palette::{palettes_from_bytes, Palette, PaletteError};

#[test]
fn test_palette_u8_to_u16() {
    let data: [u8; 32] = [
        0x00, 0x00, 0xFF, 0x7F, 0x00, 0x00, 0xB4, 0x5F, 0xA2, 0x5F, 0x80, 0x6F, 0x70, 0x4F, 0x50, 0x2F,
        0x40, 0x4E, 0x30, 0x4B, 0x20, 0x48, 0x0C, 0x10, 0x09, 0x00, 0xDD, 0x0D, 0xBB, 0x0B, 0x99, 0x09,
    ];

    let expect_result: [u16; 16] = [
        0x0000, 0x7FFF, 0x0000, 0x5FB4, 0x5FA2, 0x6F80, 0x4F70, 0x2F50,
        0x4E40, 0x4B30, 0x4820, 0x100C, 0x0009, 0x0DDD, 0x0BBB, 0x0999,
    ];

    let result: [u16; 16] = Palette::u8x32_to_u16x16_le(data.to_vec())
        .unwrap()
        .try_into()
        .expect("Failed to convert");

    assert_eq!(result, expect_result);
}

#[test]
fn test_palette_new_form_arr() {
    let result = [
        0x0000, 0x7FFF, 0x0000, 0x5FB4, 0x5FA2, 0x6F80, 0x4F70, 0x2F50,
        0x4E40, 0x4B30, 0x4820, 0x100C, 0x0009, 0x0DDD, 0x0BBB, 0x0999,
    ];
    let palette = Palette::new_from_vec(result.to_vec()).unwrap();

    assert_eq!(palette.palette_index, 0);
    assert_eq!(palette.color_array, result[1..]);
}

#[test]
fn test_palette_new_from_vec() {
    let expect_result: [u16; 16] = [
        0x0000, 0x7FFF, 0x0000, 0x5FB4, 0x5FA2, 0x6F80, 0x4F70, 0x2F50,
        0x4E40, 0x4B30, 0x4820, 0x100C, 0x0009, 0x0DDD, 0x0BBB, 0x0999,
    ];

    let palette = Palette::new_from_vec_idx(expect_result[0], expect_result[1..].to_vec()).unwrap();

    assert_eq!(palette.palette_index, 0);
    assert_eq!(palette.color_array, expect_result[1..].to_vec());
}

#[test]
fn palette_from_vec_rejects_wrong_lengths() {
    match Palette::new_from_vec(vec![1u16; 15]) {
        Err(e) => assert_eq!(e, PaletteError::InvalidLength { expected: 16, found: 15 }),
        Ok(_) => panic!("a 15-word vector is not a palette"),
    }
    match Palette::new_from_vec(vec![1u16; 17]) {
        Err(e) => assert_eq!(e, PaletteError::InvalidLength { expected: 16, found: 17 }),
        Ok(_) => panic!("a 17-word vector is not a palette"),
    }
}

#[test]
fn palette_from_vec_idx_rejects_wrong_lengths() {
    match Palette::new_from_vec_idx(3, vec![1u16; 16]) {
        Err(e) => assert_eq!(e, PaletteError::InvalidLength { expected: 16, found: 16 }),
        Ok(_) => panic!("sixteen colours are one too many"),
    }
    match Palette::new_from_vec_idx(3, Vec::new()) {
        Err(e) => assert_eq!(e, PaletteError::InvalidLength { expected: 16, found: 0 }),
        Ok(_) => panic!("no colours is not a palette"),
    }
}

#[test]
fn palette_bytes_reject_wrong_lengths() {
    assert_eq!(
        Palette::u8x32_to_u16x16_le(vec![0u8; 31]),
        Err(PaletteError::InvalidLength { expected: 32, found: 31 })
    );
    assert_eq!(
        Palette::u8x32_to_u16x16_le(vec![0u8; 64]),
        Err(PaletteError::InvalidLength { expected: 32, found: 64 })
    );
}

#[test]
fn palette_words_are_little_endian() {
    let mut data = vec![0u8; 32];
    data[0] = 0x34;
    data[1] = 0x12;
    data[30] = 0xCD;
    data[31] = 0xAB;
    let words = Palette::u8x32_to_u16x16_le(data).unwrap();
    assert_eq!(words.len(), 16);
    assert_eq!(words[0], 0x1234);
    assert_eq!(words[15], 0xABCD);
    assert!(words[1..15].iter().all(|w| *w == 0));
}

#[test]
fn palette_from_whole_vector_matches_index_and_colours() {
    let words: Vec<u16> = (0..16u16).map(|k| k * 0x111).collect();
    let a = Palette::new_from_vec(words.clone()).unwrap();
    let b = Palette::new_from_vec_idx(words[0], words[1..].to_vec()).unwrap();
    assert_eq!(a.palette_index, b.palette_index);
    assert_eq!(a.color_array, b.color_array);
}

#[test]
fn palettes_from_bytes_splits_blocks() {
    let mut buf = vec![0u8; 32 * 3 + 5];
    for (i, b) in buf.iter_mut().enumerate() {
        *b = i as u8;
    }
    let palettes = palettes_from_bytes(&buf);
    assert_eq!(palettes.len(), 3);
    assert_eq!(palettes[0].palette_index, 0x0100);
    assert_eq!(palettes[0].color_array.len(), 15);
    assert_eq!(palettes[0].color_array[0], 0x0302);
    assert_eq!(palettes[2].palette_index, 0x4140);
    assert_eq!(palettes[2].color_array[14], 0x5F5E);
}

#[test]
fn palettes_from_short_buffer_is_empty() {
    assert_eq!(palettes_from_bytes(&[0u8; 31]).len(), 0);
}
