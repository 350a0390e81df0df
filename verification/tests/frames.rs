use sp2::frame_bank::{
    parse_frame_bank, swap_byte_pairs, FrameError, FrameEvent, CHARACTER_COUNT, FRAME_TABLE_OFFSET,
};
use sp2::framedef::FrameDefinition;

fn bank_with(frames: &[u8], size: u16) -> Vec<u8> {
    let mut b = vec![0u8; FRAME_TABLE_OFFSET + 4096];
    let start = FRAME_TABLE_OFFSET;
    b[start..start + 4].copy_from_slice(&[0x00, 0x01, 0x23, 0x45]);
    b[start + 4] = (size >> 8) as u8;
    b[start + 5] = size as u8;
    b[start + 6..start + 6 + frames.len()].copy_from_slice(frames);
    b
}

fn three_frames() -> Vec<u8> {
    let mut f = vec![5, 0x00, 2, 4, 0x00, 0x00, 0x10, 0x00, 0xF0, 0x00, 0x80, 0x00];
    f.extend_from_slice(&[1, 0x02, 2, 3]);
    for k in 0..6u8 {
        f.extend_from_slice(&[0x01, 0x00, k]);
    }
    f.extend_from_slice(&[0, 0x09, 1, 1, 0x02, 0x03, 0x80, 0x00, 0x07, 0x00]);
    f
}

fn frame_of(ev: &FrameEvent) -> (u8, u16, u8, &FrameDefinition) {
    match ev {
        FrameEvent::Frame { character, index, draw_type, frame } => (*character, *index, *draw_type, frame),
        _ => panic!("expected a frame"),
    }
}

#[test]
fn empty_table_reports_every_character() {
    let bank = parse_frame_bank(&vec![0u8; FRAME_TABLE_OFFSET + 6 * 0x23]);
    assert_eq!(bank.outcome, Ok(()));
    assert_eq!(bank.events.len(), CHARACTER_COUNT as usize);
    for (k, ev) in bank.events.iter().enumerate() {
        match ev {
            FrameEvent::Character { character, frame_def_ptr, frame_def_size } => {
                assert_eq!(*character as usize, k);
                assert_eq!(*frame_def_ptr, 0);
                assert_eq!(*frame_def_size, 0);
            },
            _ => panic!("no frames were declared"),
        }
    }
}

#[test]
fn frames_of_three_draw_types_are_read() {
    let bank = parse_frame_bank(&bank_with(&three_frames(), 3));
    assert_eq!(bank.outcome, Ok(()));
    assert_eq!(bank.events.len(), 1 + 3 + (CHARACTER_COUNT as usize - 1));
    match &bank.events[0] {
        FrameEvent::Character { character, frame_def_ptr, frame_def_size } => {
            assert_eq!(*character, 0);
            assert_eq!(*frame_def_ptr, 0x0001_2345);
            assert_eq!(*frame_def_size, 3);
        },
        _ => panic!("expected the character header"),
    }

    let (ch, idx, ty, f) = frame_of(&bank.events[1]);
    assert_eq!((ch, idx, ty), (0, 0, 0x00));
    assert_eq!((f.palette(), f.width(), f.height()), (5, 2, 4));
    assert_eq!(f.bitmap(), &vec![0xF000, 0x8000]);
    assert_eq!(f.tile_offset(), &vec![0x1000, 0x1001, 0x1002, 0x1003, 0x1004]);

    let (ch, idx, ty, f) = frame_of(&bank.events[2]);
    assert_eq!((ch, idx, ty), (0, 1, 0x02));
    assert_eq!((f.palette(), f.width(), f.height()), (1, 2, 3));
    assert_eq!(f.bitmap(), &vec![0xE000, 0xE000]);
    assert_eq!(f.tile_offset(), &vec![0x1000, 0x1001, 0x1002, 0x1003, 0x1004, 0x1005]);

    let (ch, idx, ty, f) = frame_of(&bank.events[3]);
    assert_eq!((ch, idx, ty), (0, 2, 0x09));
    assert_eq!(f.bitmap(), &vec![0x8000]);
    assert_eq!(f.tile_offset(), &vec![0x3207]);

    match &bank.events[4] {
        FrameEvent::Character { character, frame_def_size, .. } => {
            assert_eq!(*character, 1);
            assert_eq!(*frame_def_size, 0);
        },
        _ => panic!("expected the next character"),
    }
}

#[test]
fn alternating_packed_tiles_swap_their_high_byte() {
    let frames = [
        0, 0x05, 1, 2, 0xC0, 0x00, 0x01, 0x23, 0x45, 0x67, 0x89, 0x0A, 0x00,
    ];
    let bank = parse_frame_bank(&bank_with(&frames, 1));
    assert_eq!(bank.outcome, Ok(()));
    let (_, _, ty, f) = frame_of(&bank.events[1]);
    assert_eq!(ty, 0x05);
    assert_eq!(f.tile_offset(), &vec![(0x01 << 12) | 0x2345, (0x0A << 12) | 0x6789]);
}

#[test]
fn high_byte_bitmap_with_offset16_tiles() {
    let frames = [
        2, 0x08, 2, 8, 0x00, 0x03, 0x81, 0x01, 0x00, 0x01, 0x00, 0x02, 0x00, 0x03,
    ];
    let bank = parse_frame_bank(&bank_with(&frames, 1));
    assert_eq!(bank.outcome, Ok(()));
    let (_, _, ty, f) = frame_of(&bank.events[1]);
    assert_eq!(ty, 0x08);
    assert_eq!(f.bitmap(), &vec![0x8100, 0x0100]);
    assert_eq!(f.tile_offset(), &vec![0x3001, 0x3002, 0x3003]);
}

#[test]
fn unknown_draw_type_stops_reading() {
    let bank = parse_frame_bank(&bank_with(&[0, 0x0b, 1, 1], 1));
    assert_eq!(
        bank.outcome,
        Err(FrameError::UnknownDrawType { character: 0, index: 0, draw_type: 0x0b })
    );
    assert_eq!(bank.events.len(), 2);
    match &bank.events[1] {
        FrameEvent::Unfinished { character, index, draw_type, width, height, prefix_read } => {
            assert_eq!((*character, *index, *draw_type, *width, *height), (0, 0, 0x0b, 1, 1));
            assert!(!*prefix_read);
        },
        _ => panic!("expected the unfinished frame"),
    }
}

#[test]
fn failed_frame_reports_its_header() {
    let bank = parse_frame_bank(&bank_with(&[4, 0x03, 1, 17, 0, 0], 1));
    assert_eq!(bank.outcome, Err(FrameError::Overflow));
    assert_eq!(bank.events.len(), 2);
    match &bank.events[1] {
        FrameEvent::Unfinished { draw_type, width, height, prefix_read, .. } => {
            assert_eq!((*draw_type, *width, *height), (0x03, 1, 17));
            assert!(*prefix_read);
        },
        _ => panic!("expected the unfinished frame"),
    }
}

#[test]
fn full_columns_past_255_tiles_overflow() {
    let bank = parse_frame_bank(&bank_with(&[0, 0x02, 16, 16], 1));
    assert_eq!(bank.outcome, Err(FrameError::Overflow));
}

#[test]
fn full_columns_taller_than_16_overflow() {
    let bank = parse_frame_bank(&bank_with(&[0, 0x03, 1, 17, 0, 0], 1));
    assert_eq!(bank.outcome, Err(FrameError::Overflow));
}

#[test]
fn sequential_tiles_past_u32_overflow() {
    let frames = [0, 0x00, 1, 1, 0xFF, 0xFF, 0xFF, 0xFF, 0xC0, 0x00, 0];
    let bank = parse_frame_bank(&bank_with(&frames, 1));
    assert_eq!(bank.outcome, Err(FrameError::Overflow));
}

#[test]
fn short_bank_is_out_of_bounds() {
    let bank = parse_frame_bank(&vec![0u8; 100]);
    assert_eq!(bank.outcome, Err(FrameError::OutOfBounds));
    assert_eq!(bank.events.len(), 0);
}

#[test]
fn truncated_frame_is_out_of_bounds() {
    let mut b = vec![0u8; FRAME_TABLE_OFFSET + 8];
    b[FRAME_TABLE_OFFSET + 5] = 1;
    let bank = parse_frame_bank(&b);
    assert_eq!(bank.outcome, Err(FrameError::OutOfBounds));
    assert_eq!(bank.events.len(), 1);
}

#[test]
fn byte_pairs_swap_and_swap_back() {
    let mut v = vec![1u8, 2, 3, 4, 5];
    swap_byte_pairs(&mut v);
    assert_eq!(v, vec![2, 1, 4, 3, 5]);
    swap_byte_pairs(&mut v);
    assert_eq!(v, vec![1, 2, 3, 4, 5]);
}

#[test]
fn bitmap_grid_reads_rows_from_the_top_bit() {
    let f = FrameDefinition::new(0, 3, 2, vec![0x8000, 0x4000, 0xC000], vec![1, 2, 3, 4]);
    let grid = f.bitmap_grid();
    assert_eq!(grid, vec![vec![true, false, true], vec![false, true, true]]);
}

#[test]
fn bitmap_grid_of_a_frame_without_rows_is_empty() {
    let f = FrameDefinition::new(7, 5, 0, vec![], vec![0xfffff]);
    assert_eq!(f.bitmap_grid().len(), 0);
}

#[test]
fn bitmap_grid_has_sixteen_rows_at_most() {
    let f = FrameDefinition::new(0, 1, 16, vec![0x0001], vec![]);
    let grid = f.bitmap_grid();
    assert_eq!(grid.len(), 16);
    assert!(grid[..15].iter().all(|r| r == &vec![false]));
    assert_eq!(grid[15], vec![true]);
}

#[test]
fn bitmap_grid_ignores_masks_past_the_width() {
    let f = FrameDefinition::new(0, 2, 2, vec![0x8000, 0x4000, 0xFFFF], vec![]);
    assert_eq!(f.bitmap_grid(), vec![vec![true, false], vec![false, true]]);
}

#[test]
fn every_parsed_frame_has_one_tile_per_cell() {
    let bank = parse_frame_bank(&bank_with(&three_frames(), 3));
    for ev in &bank.events {
        if let FrameEvent::Frame { frame, .. } = ev {
            assert_eq!(frame.bitmap().len(), frame.width() as usize);
            let cells: u32 = frame.bitmap().iter().map(|m| m.count_ones()).sum();
            assert_eq!(frame.tile_offset().len(), cells as usize);
        }
    }
}
