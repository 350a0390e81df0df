use vstd::prelude::*;

use crate::frame_bank::{
    be16, be32, bitmap_bits, mask_high_bytes, mask_words, column_mask, fits, read_characters, read_frame, read_frames, repeat_mask,
    spec_frame_layout, spec_parse_frame_bank, FrameError, FrameEventView, CHARACTER_COUNT,
    FRAME_TABLE_OFFSET,
};
use crate::framedef::mask_bit;

verus! {

/// Draw type 0x04 has the layout of draw type 0x00, and exactly the draw types
/// 0x00 to 0x0a have a layout.
pub proof fn lemma_draw_type_layouts()
    ensures
        spec_frame_layout(0x04) == spec_frame_layout(0x00),
        forall|t: u8| #[trigger] spec_frame_layout(t) is Some <==> t <= 0x0a,
{
}

/// A frame whose header is there is refused as of unknown draw type exactly when
/// its draw type is above 0x0a.
pub proof fn lemma_unknown_draw_type(b: Seq<u8>, off: int, ch: u8, idx: u16)
    requires
        fits(b, off, 4),
    ensures
        (read_frame(b, off, ch, idx) matches Err(FrameError::UnknownDrawType { .. })) <==> b[off
            + 1] > 0x0a,
        read_frame(b, off, ch, idx) matches Err(FrameError::UnknownDrawType { character, index, draw_type })
            ==> character == ch && index == idx && draw_type == b[off + 1],
{
}

/// A frame that reads is reported with the character and index it was read as,
/// and with the palette, draw type, width and height of its four header bytes.
pub proof fn lemma_frame_header(b: Seq<u8>, off: int, ch: u8, idx: u16)
    ensures
        read_frame(b, off, ch, idx) matches Ok((ev, _)) ==> {
            &&& fits(b, off, 4)
            &&& ev matches FrameEventView::Frame { character, index, draw_type, frame }
            &&& character == ch
            &&& index == idx
            &&& draw_type == b[off + 1]
            &&& frame.palette == b[off]
            &&& frame.width == b[off + 2]
            &&& frame.height == b[off + 3]
        },
{
}

/// The first offset at or after `x` that is even.
pub open spec fn even_at_or_after(x: int) -> int {
    x + x % 2
}

/// Draw types 0x00 and 0x04: a big-endian 32-bit base tile, one big-endian mask
/// per column, and consecutive tiles from the base; the frame ends after the masks.
pub proof fn lemma_frame_type_00_04(b: Seq<u8>, off: int, ch: u8, idx: u16)
    requires
        fits(b, off, 4),
        b[off + 1] == 0x00 || b[off + 1] == 0x04,
    ensures
        read_frame(b, off, ch, idx) matches Ok((FrameEventView::Frame { frame, .. }, o)) ==> {
            let s = off + 4;
            let w = b[off + 2] as int;
            &&& frame.bitmap.len() == w
            &&& forall|j: int| 0 <= j < w ==> #[trigger] frame.bitmap[j] == be16(b, s + 4 + 2 * j)
            &&& forall|k: int|
                0 <= k < frame.tile_offset.len() ==> #[trigger] frame.tile_offset[k] == be32(b, s)
                    + k
            &&& o == s + 4 + 2 * w
        },
{
}

/// Draw type 0x01: a big-endian 32-bit base tile, one byte per column giving the
/// top eight rows of its mask, and consecutive tiles from the base; the frame ends
/// at the first even offset after the masks.
pub proof fn lemma_frame_type_01(b: Seq<u8>, off: int, ch: u8, idx: u16)
    requires
        fits(b, off, 4),
        b[off + 1] == 0x01,
    ensures
        read_frame(b, off, ch, idx) matches Ok((FrameEventView::Frame { frame, .. }, o)) ==> {
            let s = off + 4;
            let w = b[off + 2] as int;
            &&& frame.bitmap.len() == w
            &&& forall|j: int|
                0 <= j < w ==> #[trigger] frame.bitmap[j] == b[s + 4 + j] as int * 0x100
            &&& forall|k: int|
                0 <= k < frame.tile_offset.len() ==> #[trigger] frame.tile_offset[k] == be32(b, s)
                    + k
            &&& o == even_at_or_after(s + 4 + w)
        },
{
}

/// A full column of `h` rows has exactly its top `h` bits set: bit `bit` is set
/// when it is among the top `h`.
proof fn lemma_full_column_rows(h: u16, bit: u16)
    requires
        h <= 16,
        bit < 16,
    ensures
        mask_bit(column_mask(h as nat), bit) == (bit + h >= 16),
{
    vstd::arithmetic::power2::lemma2_to64();
    vstd::bits::lemma_u32_pow2_no_overflow((16 - h) as nat);
    vstd::bits::lemma_u32_shl_is_mul(1u32, (16 - h) as u32);
    let low: u32 = 1u32 << ((16 - h) as u32);
    let m: u16 = column_mask(h as nat);
    assert(m == (0x1_0000u32 - low) as u16);
    assert(((m >> bit) & 1u16 == 1u16) == (bit + h >= 16)) by (bit_vector)
        requires
            h <= 16,
            bit < 16,
            low == 1u32 << ((16 - h) as u32),
            m == (0x1_0000u32 - low) as u16,
    ;
}

/// The masks of a full-column frame: `w` columns with exactly their top `h` rows drawn.
proof fn lemma_full_columns(w: nat, h: u8)
    requires
        h <= 16,
    ensures
        forall|j: int, bit: u16|
            0 <= j < w && bit < 16 ==> #[trigger] mask_bit(
                repeat_mask(w, column_mask(h as nat))[j],
                bit,
            ) == (bit + h >= 16),
{
    assert forall|j: int, bit: u16| 0 <= j < w && bit < 16 implies #[trigger] mask_bit(
        repeat_mask(w, column_mask(h as nat))[j],
        bit,
    ) == (bit + h >= 16) by {
        lemma_full_column_rows(h as u16, bit);
    }
}

/// Draw type 0x02: no stored masks, every column has its top `height` rows drawn
/// (bit `15 - row` is set for the rows above `height`)
/// (`width * height` tiles, at most 255); three bytes per tile, a high byte then a
/// big-endian word; the frame ends at the first even offset after the tiles.
pub proof fn lemma_frame_type_02(b: Seq<u8>, off: int, ch: u8, idx: u16)
    requires
        fits(b, off, 4),
        b[off + 1] == 0x02,
    ensures
        read_frame(b, off, ch, idx) matches Ok((FrameEventView::Frame { frame, .. }, o)) ==> {
            let s = off + 4;
            let w = b[off + 2] as int;
            let h = b[off + 3] as int;
            &&& h <= 16
            &&& w * h <= 0xff
            &&& frame.bitmap.len() == w
            &&& forall|j: int, bit: u16|
                0 <= j < w && bit < 16 ==> #[trigger] mask_bit(frame.bitmap[j], bit) == (bit + h
                    >= 16)
            &&& frame.tile_offset.len() == w * h
            &&& forall|k: int|
                0 <= k < w * h ==> #[trigger] frame.tile_offset[k] == ((b[s + 3 * k] as u32)
                    << 12u32) | (be16(b, s + 3 * k + 1) as u32)
            &&& o == even_at_or_after(s + 3 * (w * h))
        },
{
    if read_frame(b, off, ch, idx) is Ok && b[off + 3] <= 16 {
        lemma_full_columns(b[off + 2] as nat, b[off + 3]);
    }
}

/// Draw type 0x03: a big-endian word giving the high tile bits (shifted left by
/// 12), no stored masks (every column has its top `height` rows drawn, `width *
/// height` tiles, at most 255), and one big-endian word per tile added to the high
/// bits; the frame ends after the tiles.
pub proof fn lemma_frame_type_03(b: Seq<u8>, off: int, ch: u8, idx: u16)
    requires
        fits(b, off, 4),
        b[off + 1] == 0x03,
    ensures
        read_frame(b, off, ch, idx) matches Ok((FrameEventView::Frame { frame, .. }, o)) ==> {
            let s = off + 4;
            let w = b[off + 2] as int;
            let h = b[off + 3] as int;
            &&& h <= 16
            &&& w * h <= 0xff
            &&& frame.bitmap.len() == w
            &&& forall|j: int, bit: u16|
                0 <= j < w && bit < 16 ==> #[trigger] mask_bit(frame.bitmap[j], bit) == (bit + h
                    >= 16)
            &&& frame.tile_offset.len() == w * h
            &&& forall|k: int|
                0 <= k < w * h ==> #[trigger] frame.tile_offset[k] == be16(b, s) as int * 0x1000
                    + be16(b, s + 2 + 2 * k)
            &&& o == s + 2 + 2 * (w * h)
        },
{
    if read_frame(b, off, ch, idx) is Ok && b[off + 3] <= 16 {
        lemma_full_columns(b[off + 2] as nat, b[off + 3]);
    }
}

/// Tile `k` of a run of three-byte tiles at `m` that alternate between a high
/// byte then a big-endian word (even `k`) and a big-endian word then a high byte
/// (odd `k`).
pub open spec fn alternating_tile(b: Seq<u8>, m: int, k: int) -> u32 {
    if k % 2 == 0 {
        ((b[m + 3 * k] as u32) << 12u32) | (be16(b, m + 3 * k + 1) as u32)
    } else {
        ((b[m + 3 * k + 2] as u32) << 12u32) | (be16(b, m + 3 * k) as u32)
    }
}

/// Draw type 0x05: one big-endian mask per column, then three bytes per drawn
/// cell in the alternating form; the frame ends at the first even offset after
/// the tiles.
pub proof fn lemma_frame_type_05(b: Seq<u8>, off: int, ch: u8, idx: u16)
    requires
        fits(b, off, 4),
        b[off + 1] == 0x05,
    ensures
        read_frame(b, off, ch, idx) matches Ok((FrameEventView::Frame { frame, .. }, o)) ==> {
            let s = off + 4;
            let w = b[off + 2] as int;
            let m = s + 2 * w;
            let n = frame.tile_offset.len() as int;
            &&& frame.bitmap.len() == w
            &&& forall|j: int| 0 <= j < w ==> #[trigger] frame.bitmap[j] == be16(b, s + 2 * j)
            &&& forall|k: int|
                0 <= k < n ==> #[trigger] frame.tile_offset[k] == alternating_tile(b, m, k)
            &&& o == even_at_or_after(m + 3 * n)
        },
{
}

/// Draw type 0x06: one byte per column (the top eight rows of its mask), then, from
/// the first even offset after them, three bytes per drawn cell in the alternating
/// form; the frame ends at the first even offset after the tiles.
pub proof fn lemma_frame_type_06(b: Seq<u8>, off: int, ch: u8, idx: u16)
    requires
        fits(b, off, 4),
        b[off + 1] == 0x06,
    ensures
        read_frame(b, off, ch, idx) matches Ok((FrameEventView::Frame { frame, .. }, o)) ==> {
            let s = off + 4;
            let w = b[off + 2] as int;
            let m = even_at_or_after(s + w);
            let n = frame.tile_offset.len() as int;
            &&& frame.bitmap.len() == w
            &&& forall|j: int| 0 <= j < w ==> #[trigger] frame.bitmap[j] == b[s + j] as int * 0x100
            &&& forall|k: int|
                0 <= k < n ==> #[trigger] frame.tile_offset[k] == alternating_tile(b, m, k)
            &&& o == even_at_or_after(m + 3 * n)
        },
{
}

/// Draw type 0x07: a big-endian word giving the high tile bits (shifted left by
/// 12), one big-endian mask per column, then one big-endian word per drawn cell
/// added to the high bits; the frame ends after the tiles.
pub proof fn lemma_frame_type_07(b: Seq<u8>, off: int, ch: u8, idx: u16)
    requires
        fits(b, off, 4),
        b[off + 1] == 0x07,
    ensures
        read_frame(b, off, ch, idx) matches Ok((FrameEventView::Frame { frame, .. }, o)) ==> {
            let s = off + 4;
            let w = b[off + 2] as int;
            let m = s + 2 + 2 * w;
            let n = frame.tile_offset.len() as int;
            &&& frame.bitmap.len() == w
            &&& forall|j: int| 0 <= j < w ==> #[trigger] frame.bitmap[j] == be16(b, s + 2 + 2 * j)
            &&& forall|k: int|
                0 <= k < n ==> #[trigger] frame.tile_offset[k] == be16(b, s) as int * 0x1000
                    + be16(b, m + 2 * k)
            &&& o == m + 2 * n
        },
{
}

/// Draw type 0x08: a big-endian word giving the high tile bits (shifted left by
/// 12), one byte per column (the top eight rows of its mask), then, from the first
/// even offset after them, one big-endian word per drawn cell added to the high
/// bits; the frame ends after the tiles.
pub proof fn lemma_frame_type_08(b: Seq<u8>, off: int, ch: u8, idx: u16)
    requires
        fits(b, off, 4),
        b[off + 1] == 0x08,
    ensures
        read_frame(b, off, ch, idx) matches Ok((FrameEventView::Frame { frame, .. }, o)) ==> {
            let s = off + 4;
            let w = b[off + 2] as int;
            let m = even_at_or_after(s + 2 + w);
            let n = frame.tile_offset.len() as int;
            &&& frame.bitmap.len() == w
            &&& forall|j: int|
                0 <= j < w ==> #[trigger] frame.bitmap[j] == b[s + 2 + j] as int * 0x100
            &&& forall|k: int|
                0 <= k < n ==> #[trigger] frame.tile_offset[k] == be16(b, s) as int * 0x1000
                    + be16(b, m + 2 * k)
            &&& o == m + 2 * n
        },
{
}

/// The high tile bits of draw types 0x09 and 0x0a: the second prefix byte shifted
/// left by 12, or-ed with the first shifted left by 8.
pub open spec fn mixed_high_bits(b: Seq<u8>, s: int) -> u32 {
    ((b[s + 1] as u32) << 12u32) | ((b[s] as u32) << 8u32)
}

/// The mixed high bits stay below `0x10_0000`, so adding a byte never wraps.
proof fn lemma_mixed_high_bits_bound(b: Seq<u8>, s: int)
    ensures
        mixed_high_bits(b, s) <= 0xF_FF00,
{
    let b1 = b[s + 1] as u32;
    let b0 = b[s] as u32;
    assert((b1 << 12u32) | (b0 << 8u32) <= 0xF_FF00) by (bit_vector)
        requires
            b1 < 0x100,
            b0 < 0x100,
    ;
}

/// Draw type 0x09: two bytes of high tile bits, one big-endian mask per column,
/// then one byte per drawn cell added to the high bits; the frame ends at the
/// first even offset after the tiles.
pub proof fn lemma_frame_type_09(b: Seq<u8>, off: int, ch: u8, idx: u16)
    requires
        fits(b, off, 4),
        b[off + 1] == 0x09,
    ensures
        read_frame(b, off, ch, idx) matches Ok((FrameEventView::Frame { frame, .. }, o)) ==> {
            let s = off + 4;
            let w = b[off + 2] as int;
            let m = s + 2 + 2 * w;
            let n = frame.tile_offset.len() as int;
            &&& frame.bitmap.len() == w
            &&& forall|j: int| 0 <= j < w ==> #[trigger] frame.bitmap[j] == be16(b, s + 2 + 2 * j)
            &&& forall|k: int|
                0 <= k < n ==> #[trigger] frame.tile_offset[k] == mixed_high_bits(b, s) as int
                    + b[m + k]
            &&& o == even_at_or_after(m + n)
        },
{
    if read_frame(b, off, ch, idx) is Ok {
        lemma_mixed_high_bits_bound(b, off + 4);
    }
}

/// Draw type 0x0a: two bytes of high tile bits, one byte per column (the top eight
/// rows of its mask), then one byte per drawn cell added to the high bits; the
/// frame ends at the first even offset after the tiles.
pub proof fn lemma_frame_type_0a(b: Seq<u8>, off: int, ch: u8, idx: u16)
    requires
        fits(b, off, 4),
        b[off + 1] == 0x0a,
    ensures
        read_frame(b, off, ch, idx) matches Ok((FrameEventView::Frame { frame, .. }, o)) ==> {
            let s = off + 4;
            let w = b[off + 2] as int;
            let m = s + 2 + w;
            let n = frame.tile_offset.len() as int;
            &&& frame.bitmap.len() == w
            &&& forall|j: int|
                0 <= j < w ==> #[trigger] frame.bitmap[j] == b[s + 2 + j] as int * 0x100
            &&& forall|k: int|
                0 <= k < n ==> #[trigger] frame.tile_offset[k] == mixed_high_bits(b, s) as int
                    + b[m + k]
            &&& o == even_at_or_after(m + n)
        },
{
    if read_frame(b, off, ch, idx) is Ok {
        lemma_mixed_high_bits_bound(b, off + 4);
    }
}

/// The table starts with the header of character 0 at `FRAME_TABLE_OFFSET`: a
/// big-endian pointer and a big-endian frame count.
pub proof fn lemma_first_character_header(b: Seq<u8>)
    requires
        fits(b, FRAME_TABLE_OFFSET as int, 6),
    ensures
        spec_parse_frame_bank(b).0.len() > 0,
        spec_parse_frame_bank(b).0[0] == (FrameEventView::Character {
            character: 0,
            frame_def_ptr: be32(b, FRAME_TABLE_OFFSET as int),
            frame_def_size: be16(b, FRAME_TABLE_OFFSET as int + 4),
        }),
{
}

/// After the `n` frames of a character, whose list ends at `o`, four bytes per
/// frame are skipped: the next character's header is read at `o + 4 * n`.
pub proof fn lemma_next_character_header(b: Seq<u8>, off: int, ch: nat)
    requires
        ch + 1 < CHARACTER_COUNT,
        fits(b, off, 6),
        b.len() <= usize::MAX,
    ensures
        ({
            let n = be16(b, off + 4) as nat;
            let (frames, r) = read_frames(b, off + 6, ch as u8, 0, n);
            r matches Ok(o) ==> (fits(b, o + 4 * n, 6) ==> {
                &&& read_characters(b, off, ch).0.len() > 1 + frames.len()
                &&& read_characters(b, off, ch).0[1 + frames.len() as int] == (FrameEventView::Character {
                    character: (ch + 1) as u8,
                    frame_def_ptr: be32(b, o + 4 * n),
                    frame_def_size: be16(b, o + 4 * n + 4),
                })
            })
        }),
{
    let n = be16(b, off + 4) as nat;
    let (frames, r) = read_frames(b, off + 6, ch as u8, 0, n);
    if let Ok(o) = r {
        if fits(b, o + 4 * n, 6) {
            let header = FrameEventView::Character {
                character: ch as u8,
                frame_def_ptr: be32(b, off),
                frame_def_size: n as u16,
            };
            let rest = read_characters(b, o + 4 * n, ch + 1).0;
            assert(read_characters(b, off, ch).0 == seq![header] + frames + rest);
            assert(rest[0] == (FrameEventView::Character {
                character: (ch + 1) as u8,
                frame_def_ptr: be32(b, o + 4 * n),
                frame_def_size: be16(b, o + 4 * n + 4),
            }));
            assert((seq![header] + frames + rest)[1 + frames.len() as int] == rest[0]);
        }
    }
}

/// A frame of draw type 0x00 or 0x04 reads exactly when its base, masks and one
/// byte per drawn cell are there and the last tile number fits in 32 bits.
pub proof fn lemma_frame_type_00_04_reads(b: Seq<u8>, off: int, ch: u8, idx: u16)
    requires
        fits(b, off, 4),
        b[off + 1] == 0x00 || b[off + 1] == 0x04,
        b.len() < usize::MAX,
    ensures
        read_frame(b, off, ch, idx) is Ok <==> {
            let s = off + 4;
            let w = b[off + 2] as nat;
            let h = b[off + 3] as nat;
            let m = s + 4 + 2 * w;
            let n = bitmap_bits(mask_words(b, s + 4, w));
            &&& m + n <= b.len()
            &&& n > 0 ==> be32(b, s) + n - 1 <= u32::MAX
        },
{
}

/// A frame of draw type 0x01 reads exactly when its base, mask bytes and one byte
/// per drawn cell are there and the last tile number fits in 32 bits.
pub proof fn lemma_frame_type_01_reads(b: Seq<u8>, off: int, ch: u8, idx: u16)
    requires
        fits(b, off, 4),
        b[off + 1] == 0x01,
        b.len() < usize::MAX,
    ensures
        read_frame(b, off, ch, idx) is Ok <==> {
            let s = off + 4;
            let w = b[off + 2] as nat;
            let h = b[off + 3] as nat;
            let m = s + 4 + w;
            let n = bitmap_bits(mask_high_bytes(b, s + 4, w));
            &&& m + n <= b.len()
            &&& n > 0 ==> be32(b, s) + n - 1 <= u32::MAX
        },
{
}

/// A frame of draw type 0x02 reads exactly when its height is at most 16, it has at
/// most 255 cells, and three bytes per cell are there.
pub proof fn lemma_frame_type_02_reads(b: Seq<u8>, off: int, ch: u8, idx: u16)
    requires
        fits(b, off, 4),
        b[off + 1] == 0x02,
        b.len() < usize::MAX,
    ensures
        read_frame(b, off, ch, idx) is Ok <==> {
            let s = off + 4;
            let w = b[off + 2] as nat;
            let h = b[off + 3] as nat;
            &&& h <= 16
            &&& w * h <= 0xff
            &&& s + 3 * (w * h) <= b.len()
        },
{
}

/// A frame of draw type 0x03 reads exactly when its high word is there, its height
/// is at most 16, it has at most 255 cells, and two bytes per cell are there.
pub proof fn lemma_frame_type_03_reads(b: Seq<u8>, off: int, ch: u8, idx: u16)
    requires
        fits(b, off, 4),
        b[off + 1] == 0x03,
        b.len() < usize::MAX,
    ensures
        read_frame(b, off, ch, idx) is Ok <==> {
            let s = off + 4;
            let w = b[off + 2] as nat;
            let h = b[off + 3] as nat;
            &&& s + 2 <= b.len()
            &&& h <= 16
            &&& w * h <= 0xff
            &&& s + 2 + 2 * (w * h) <= b.len()
        },
{
}

/// A frame of draw type 0x05 reads exactly when its masks and three bytes per drawn
/// cell are there.
pub proof fn lemma_frame_type_05_reads(b: Seq<u8>, off: int, ch: u8, idx: u16)
    requires
        fits(b, off, 4),
        b[off + 1] == 0x05,
        b.len() < usize::MAX,
    ensures
        read_frame(b, off, ch, idx) is Ok <==> {
            let s = off + 4;
            let w = b[off + 2] as nat;
            let h = b[off + 3] as nat;
            let m = s + 2 * w;
            let n = bitmap_bits(mask_words(b, s, w));
            m + 3 * n <= b.len()
        },
{
}

/// A frame of draw type 0x06 reads exactly when its mask bytes are there and, from
/// the first even offset after them, three bytes per drawn cell.
pub proof fn lemma_frame_type_06_reads(b: Seq<u8>, off: int, ch: u8, idx: u16)
    requires
        fits(b, off, 4),
        b[off + 1] == 0x06,
        b.len() < usize::MAX,
    ensures
        read_frame(b, off, ch, idx) is Ok <==> {
            let s = off + 4;
            let w = b[off + 2] as nat;
            let h = b[off + 3] as nat;
            let m = even_at_or_after(s + w);
            let n = bitmap_bits(mask_high_bytes(b, s, w));
            &&& s + w <= b.len()
            &&& m + 3 * n <= b.len()
        },
{
}

/// A frame of draw type 0x07 reads exactly when its high word, its masks and two
/// bytes per drawn cell are there.
pub proof fn lemma_frame_type_07_reads(b: Seq<u8>, off: int, ch: u8, idx: u16)
    requires
        fits(b, off, 4),
        b[off + 1] == 0x07,
        b.len() < usize::MAX,
    ensures
        read_frame(b, off, ch, idx) is Ok <==> {
            let s = off + 4;
            let w = b[off + 2] as nat;
            let h = b[off + 3] as nat;
            let m = s + 2 + 2 * w;
            let n = bitmap_bits(mask_words(b, s + 2, w));
            m + 2 * n <= b.len()
        },
{
}

/// A frame of draw type 0x08 reads exactly when its high word and mask bytes are
/// there and, from the first even offset after them, two bytes per drawn cell.
pub proof fn lemma_frame_type_08_reads(b: Seq<u8>, off: int, ch: u8, idx: u16)
    requires
        fits(b, off, 4),
        b[off + 1] == 0x08,
        b.len() < usize::MAX,
    ensures
        read_frame(b, off, ch, idx) is Ok <==> {
            let s = off + 4;
            let w = b[off + 2] as nat;
            let h = b[off + 3] as nat;
            let m = even_at_or_after(s + 2 + w);
            let n = bitmap_bits(mask_high_bytes(b, s + 2, w));
            &&& s + 2 + w <= b.len()
            &&& m + 2 * n <= b.len()
        },
{
}

/// A frame of draw type 0x09 reads exactly when its high bytes, its masks and one
/// byte per drawn cell are there.
pub proof fn lemma_frame_type_09_reads(b: Seq<u8>, off: int, ch: u8, idx: u16)
    requires
        fits(b, off, 4),
        b[off + 1] == 0x09,
        b.len() < usize::MAX,
    ensures
        read_frame(b, off, ch, idx) is Ok <==> {
            let s = off + 4;
            let w = b[off + 2] as nat;
            let h = b[off + 3] as nat;
            let m = s + 2 + 2 * w;
            let n = bitmap_bits(mask_words(b, s + 2, w));
            m + n <= b.len()
        },
{
}

/// A frame of draw type 0x0a reads exactly when its high bytes, its mask bytes and
/// one byte per drawn cell are there.
pub proof fn lemma_frame_type_0a_reads(b: Seq<u8>, off: int, ch: u8, idx: u16)
    requires
        fits(b, off, 4),
        b[off + 1] == 0x0a,
        b.len() < usize::MAX,
    ensures
        read_frame(b, off, ch, idx) is Ok <==> {
            let s = off + 4;
            let w = b[off + 2] as nat;
            let h = b[off + 3] as nat;
            let m = s + 2 + w;
            let n = bitmap_bits(mask_high_bytes(b, s + 2, w));
            m + n <= b.len()
        },
{
}

/// When a frame whose header is there does not read, its frame list stops there:
/// the header is reported as an unfinished frame, with `prefix_read` telling
/// whether the draw type is known and the bytes before its masks are there (four
/// for draw types 0x00, 0x01 and 0x04, none for 0x02, 0x05 and 0x06, two for the
/// others), and the frame's error ends the reading.
pub proof fn lemma_unfinished_frame(b: Seq<u8>, off: int, ch: u8, idx: nat, size: nat)
    requires
        idx < size,
        fits(b, off, 4),
    ensures
        read_frame(b, off, ch, idx as u16) matches Err(e) ==> {
            let t = b[off + 1];
            let prefix_len: int = if t == 0x00 || t == 0x01 || t == 0x04 {
                4
            } else if t == 0x02 || t == 0x05 || t == 0x06 {
                0
            } else {
                2
            };
            read_frames(b, off, ch, idx, size) == (
                seq![
                    FrameEventView::Unfinished {
                        character: ch,
                        index: idx as u16,
                        draw_type: t,
                        width: b[off + 2],
                        height: b[off + 3],
                        prefix_read: t <= 0x0a && fits(b, off + 4, prefix_len),
                    },
                ],
                Err::<int, FrameError>(e),
            )
        },
{
}

} // verus!
