use vstd::prelude::*;
use vstd::arithmetic::power2::{
    lemma2_to64, lemma_pow2_pos, lemma_pow2_strictly_increases, lemma_pow2_unfold, pow2,
};
use vstd::bits::{lemma_u32_pow2_no_overflow, lemma_u32_shl_is_mul};

use crate::framedef::{FrameDefinition, FrameDefinitionView};

verus! {

/// Where the frame-definition table starts in a sprite bank.
pub const FRAME_TABLE_OFFSET: usize = 0x5008c;

/// How many characters the frame-definition table describes.
pub const CHARACTER_COUNT: u8 = 0x23;

/// Why a frame-definition table could not be read to its end.
#[derive(Debug, Clone, Copy, PartialEq, Eq, Structural)]
pub enum FrameError {
    /// Frame `index` of character `character` has a draw type with no known layout.
    UnknownDrawType { character: u8, index: u16, draw_type: u8 },
    /// A field lies past the end of the bank.
    OutOfBounds,
    /// An offset or a value leaves the range of its integer type.
    Overflow,
}

/// What precedes the column masks of a frame.
#[derive(Debug, Clone, Copy, PartialEq, Eq, Structural)]
pub enum TilePrefix {
    /// Nothing.
    NoPrefix,
    /// A big-endian 32-bit base tile number.
    Base32,
    /// A big-endian 16-bit word giving the high tile bits (shifted left by 12).
    High12,
    /// Two bytes giving the high tile bits: the second shifted left by 12, or-ed
    /// with the first shifted left by 8.
    HighMixed,
}

/// How the column masks of a frame are stored.
#[derive(Debug, Clone, Copy, PartialEq, Eq, Structural)]
pub enum BitmapLayout {
    /// One big-endian 16-bit mask per column.
    Words,
    /// One byte per column, the top eight rows of the mask.
    HighBytes,
    /// Nothing stored: every column has its top `height` rows drawn.
    FullColumns,
}

/// How the tile numbers of a frame are stored, one per drawn cell.
#[derive(Debug, Clone, Copy, PartialEq, Eq, Structural)]
pub enum TileLayout {
    /// Nothing stored (the bytes are only required to be there): consecutive
    /// tiles from the 32-bit base.
    Sequential,
    /// Three bytes per tile: the first shifted left by 12, or-ed with the big-endian
    /// word in the other two.
    Packed24,
    /// Three bytes per tile, alternating between the `Packed24` form and the form
    /// with the big-endian word first and the high byte last.
    Packed24Alternating,
    /// A big-endian 16-bit word per tile, added to the high bits of the prefix.
    Offset16,
    /// A byte per tile, added to the high bits of the prefix.
    Offset8,
}

/// The layout of one frame-definition draw type.
#[derive(Debug, Clone, Copy, PartialEq, Eq, Structural)]
pub struct FrameLayout {
    pub prefix: TilePrefix,
    pub bitmap: BitmapLayout,
    pub align_after_bitmap: bool,
    pub tiles: TileLayout,
    pub align_at_end: bool,
}

/// The layouts of the known draw types.
pub open spec fn spec_frame_layout(draw_type: u8) -> Option<FrameLayout> {
    let l = |prefix, bitmap, align_after_bitmap, tiles, align_at_end|
        Some(FrameLayout { prefix, bitmap, align_after_bitmap, tiles, align_at_end });
    if draw_type == 0x00 || draw_type == 0x04 {
        l(TilePrefix::Base32, BitmapLayout::Words, false, TileLayout::Sequential, false)
    } else if draw_type == 0x01 {
        l(TilePrefix::Base32, BitmapLayout::HighBytes, false, TileLayout::Sequential, true)
    } else if draw_type == 0x02 {
        l(TilePrefix::NoPrefix, BitmapLayout::FullColumns, false, TileLayout::Packed24, true)
    } else if draw_type == 0x03 {
        l(TilePrefix::High12, BitmapLayout::FullColumns, false, TileLayout::Offset16, false)
    } else if draw_type == 0x05 {
        l(TilePrefix::NoPrefix, BitmapLayout::Words, false, TileLayout::Packed24Alternating, true)
    } else if draw_type == 0x06 {
        l(TilePrefix::NoPrefix, BitmapLayout::HighBytes, true, TileLayout::Packed24Alternating, true)
    } else if draw_type == 0x07 {
        l(TilePrefix::High12, BitmapLayout::Words, false, TileLayout::Offset16, false)
    } else if draw_type == 0x08 {
        l(TilePrefix::High12, BitmapLayout::HighBytes, true, TileLayout::Offset16, false)
    } else if draw_type == 0x09 {
        l(TilePrefix::HighMixed, BitmapLayout::Words, false, TileLayout::Offset8, true)
    } else if draw_type == 0x0a {
        l(TilePrefix::HighMixed, BitmapLayout::HighBytes, false, TileLayout::Offset8, true)
    } else {
        None
    }
}

/// The big-endian 16-bit word at `i`.
pub open spec fn be16(b: Seq<u8>, i: int) -> u16 {
    (b[i] as int * 0x100 + b[i + 1] as int) as u16
}

/// The big-endian 32-bit word at `i`.
pub open spec fn be32(b: Seq<u8>, i: int) -> u32 {
    (b[i] as int * 0x100_0000 + b[i + 1] as int * 0x1_0000 + b[i + 2] as int * 0x100 + b[
        i + 3
    ] as int) as u32
}

/// Whether `n` bytes from `off` lie inside the bank.
pub open spec fn fits(b: Seq<u8>, off: int, n: int) -> bool {
    off + n <= b.len()
}

/// Moves an offset forward, failing where it would leave `usize`.
pub open spec fn advance(off: int, n: int) -> Result<int, FrameError> {
    if off + n > usize::MAX {
        Err(FrameError::Overflow)
    } else {
        Ok(off + n)
    }
}

/// Rounds an offset up to the next even one.
pub open spec fn align_even(off: int) -> Result<int, FrameError> {
    if off % 2 == 1 {
        advance(off, 1)
    } else {
        Ok(off)
    }
}

/// The number of set bits of `x`.
pub open spec fn bit_count(x: nat) -> nat
    decreases x,
{
    if x == 0 {
        0
    } else {
        x % 2 + bit_count(x / 2)
    }
}

/// The number of drawn cells of a bitmap: the set bits of all its column masks.
pub open spec fn bitmap_bits(s: Seq<u16>) -> nat
    decreases s.len(),
{
    if s.len() == 0 {
        0
    } else {
        bitmap_bits(s.drop_last()) + bit_count(s.last() as nat)
    }
}

/// The column mask with its top `h` rows drawn (`h <= 16`).
pub open spec fn column_mask(h: nat) -> u16 {
    (0x1_0000 - pow2((16 - h) as nat)) as u16
}

/// `n` big-endian 16-bit masks stored from `off`.
pub open spec fn mask_words(b: Seq<u8>, off: int, n: nat) -> Seq<u16> {
    Seq::new(n, |k: int| be16(b, off + 2 * k))
}

/// `n` masks stored one byte each from `off`, as their top eight rows.
pub open spec fn mask_high_bytes(b: Seq<u8>, off: int, n: nat) -> Seq<u16> {
    Seq::new(n, |k: int| (b[off + k] as int * 0x100) as u16)
}

/// `n` columns with the same mask.
pub open spec fn repeat_mask(n: nat, m: u16) -> Seq<u16> {
    Seq::new(n, |k: int| m)
}

/// The value of a tile prefix at `off`, and the offset after it.
pub open spec fn read_prefix(b: Seq<u8>, off: int, p: TilePrefix) -> Result<(u32, int), FrameError> {
    match p {
        TilePrefix::NoPrefix => Ok((0, off)),
        TilePrefix::Base32 => if fits(b, off, 4) {
            Ok((be32(b, off), off + 4))
        } else {
            Err(FrameError::OutOfBounds)
        },
        TilePrefix::High12 => if fits(b, off, 2) {
            Ok(((be16(b, off) as int * 0x1000) as u32, off + 2))
        } else {
            Err(FrameError::OutOfBounds)
        },
        TilePrefix::HighMixed => if fits(b, off, 2) {
            Ok((((b[off + 1] as u32) << 12u32) | ((b[off] as u32) << 8u32), off + 2))
        } else {
            Err(FrameError::OutOfBounds)
        },
    }
}

/// The column masks of a frame of the given width and height at `off`, and the
/// offset after them.
pub open spec fn read_bitmap(b: Seq<u8>, off: int, l: BitmapLayout, w: u8, h: u8) -> Result<
    (Seq<u16>, int),
    FrameError,
> {
    match l {
        BitmapLayout::Words => if fits(b, off, 2 * w) {
            Ok((mask_words(b, off, w as nat), off + 2 * w))
        } else {
            Err(FrameError::OutOfBounds)
        },
        BitmapLayout::HighBytes => if fits(b, off, w as int) {
            Ok((mask_high_bytes(b, off, w as nat), off + w))
        } else {
            Err(FrameError::OutOfBounds)
        },
        BitmapLayout::FullColumns => if h > 16 {
            Err(FrameError::Overflow)
        } else {
            Ok((repeat_mask(w as nat, column_mask(h as nat)), off))
        },
    }
}

/// The number of tiles a frame draws: the drawn cells of its masks, or for full
/// columns the 8-bit product of width and height.
pub open spec fn tile_count(l: BitmapLayout, bitmap: Seq<u16>, w: u8, h: u8) -> Result<
    nat,
    FrameError,
> {
    match l {
        BitmapLayout::FullColumns => if w * h > 0xff {
            Err(FrameError::Overflow)
        } else {
            Ok((w * h) as nat)
        },
        _ => Ok(bitmap_bits(bitmap)),
    }
}

/// The bytes that must be present for `n` tiles.
pub open spec fn tile_bytes(l: TileLayout, n: nat) -> int {
    match l {
        TileLayout::Sequential => n as int,
        TileLayout::Packed24 => 3 * n as int,
        TileLayout::Packed24Alternating => 3 * n as int,
        TileLayout::Offset16 => 2 * n as int,
        TileLayout::Offset8 => n as int,
    }
}

/// The bytes the tile numbers take up in the table.
pub open spec fn tile_advance(l: TileLayout, n: nat) -> int {
    match l {
        TileLayout::Sequential => 0,
        _ => tile_bytes(l, n),
    }
}

/// A tile stored as a high byte followed by a big-endian word.
pub open spec fn tile_high_first(b: Seq<u8>, i: int) -> u32 {
    ((b[i] as u32) << 12u32) | (be16(b, i + 1) as u32)
}

/// A tile stored as a big-endian word followed by a high byte.
pub open spec fn tile_high_last(b: Seq<u8>, i: int) -> u32 {
    ((b[i + 2] as u32) << 12u32) | (be16(b, i) as u32)
}

/// Tile `k` of `n` tiles stored at `off`.
pub open spec fn tile_at(l: TileLayout, prefix: u32, b: Seq<u8>, off: int, k: int) -> u32 {
    match l {
        TileLayout::Sequential => (prefix + k) as u32,
        TileLayout::Packed24 => tile_high_first(b, off + 3 * k),
        TileLayout::Packed24Alternating => if k % 2 == 0 {
            tile_high_first(b, off + 3 * k)
        } else {
            tile_high_last(b, off + 3 * k)
        },
        TileLayout::Offset16 => (prefix + be16(b, off + 2 * k)) as u32,
        TileLayout::Offset8 => (prefix + b[off + k]) as u32,
    }
}

/// The tile numbers of a frame, and the offset after them.
pub open spec fn read_tiles(b: Seq<u8>, off: int, l: TileLayout, prefix: u32, n: nat) -> Result<
    (Seq<u32>, int),
    FrameError,
> {
    if !fits(b, off, tile_bytes(l, n)) {
        Err(FrameError::OutOfBounds)
    } else if l == TileLayout::Sequential && n > 0 && prefix + n - 1 > u32::MAX {
        Err(FrameError::Overflow)
    } else {
        Ok((Seq::new(n, |k: int| tile_at(l, prefix, b, off, k)), off + tile_advance(l, n)))
    }
}

/// Moves to the next even offset when `align` is set.
pub open spec fn align_if(align: bool, off: int) -> Result<int, FrameError> {
    if align {
        align_even(off)
    } else {
        Ok(off)
    }
}

/// The column masks, tile numbers and end offset of a frame body of the given
/// layout at `off`.
pub open spec fn read_frame_body(b: Seq<u8>, off: int, l: FrameLayout, w: u8, h: u8) -> Result<
    (Seq<u16>, Seq<u32>, int),
    FrameError,
> {
    match read_prefix(b, off, l.prefix) {
        Err(e) => Err(e),
        Ok((prefix, o1)) => match read_bitmap(b, o1, l.bitmap, w, h) {
            Err(e) => Err(e),
            Ok((bitmap, o2)) => match align_if(l.align_after_bitmap, o2) {
                Err(e) => Err(e),
                Ok(o3) => match tile_count(l.bitmap, bitmap, w, h) {
                    Err(e) => Err(e),
                    Ok(n) => match read_tiles(b, o3, l.tiles, prefix, n) {
                        Err(e) => Err(e),
                        Ok((tiles, o4)) => match align_if(l.align_at_end, o4) {
                            Err(e) => Err(e),
                            Ok(o5) => Ok((bitmap, tiles, o5)),
                        },
                    },
                },
            },
        },
    }
}

/// The layout of a draw type, if it has one.
pub fn frame_layout(draw_type: u8) -> (r: Option<FrameLayout>)
    ensures
        r == spec_frame_layout(draw_type),
{
    let l = |prefix, bitmap, align_after_bitmap, tiles, align_at_end|
        -> (r: Option<FrameLayout>)
        ensures
            r == Some(FrameLayout { prefix, bitmap, align_after_bitmap, tiles, align_at_end }),
        { Some(FrameLayout { prefix, bitmap, align_after_bitmap, tiles, align_at_end }) };
    match draw_type {
        0x00 | 0x04 => l(TilePrefix::Base32, BitmapLayout::Words, false, TileLayout::Sequential, false),
        0x01 => l(TilePrefix::Base32, BitmapLayout::HighBytes, false, TileLayout::Sequential, true),
        0x02 => l(TilePrefix::NoPrefix, BitmapLayout::FullColumns, false, TileLayout::Packed24, true),
        0x03 => l(TilePrefix::High12, BitmapLayout::FullColumns, false, TileLayout::Offset16, false),
        0x05 => l(
            TilePrefix::NoPrefix,
            BitmapLayout::Words,
            false,
            TileLayout::Packed24Alternating,
            true,
        ),
        0x06 => l(
            TilePrefix::NoPrefix,
            BitmapLayout::HighBytes,
            true,
            TileLayout::Packed24Alternating,
            true,
        ),
        0x07 => l(TilePrefix::High12, BitmapLayout::Words, false, TileLayout::Offset16, false),
        0x08 => l(TilePrefix::High12, BitmapLayout::HighBytes, true, TileLayout::Offset16, false),
        0x09 => l(TilePrefix::HighMixed, BitmapLayout::Words, false, TileLayout::Offset8, true),
        0x0a => l(TilePrefix::HighMixed, BitmapLayout::HighBytes, false, TileLayout::Offset8, true),
        _ => None,
    }
}

/// The big-endian 16-bit word at `i`.
fn read_be16(b: &[u8], i: usize) -> (r: u16)
    requires
        i + 2 <= b@.len(),
    ensures
        r == be16(b@, i as int),
{
    (b[i] as u16) * 0x100 + b[i + 1] as u16
}

/// The big-endian 32-bit word at `i`.
fn read_be32(b: &[u8], i: usize) -> (r: u32)
    requires
        i + 4 <= b@.len(),
    ensures
        r == be32(b@, i as int),
{
    (b[i] as u32) * 0x100_0000 + (b[i + 1] as u32) * 0x1_0000 + (b[i + 2] as u32) * 0x100
        + b[i + 3] as u32
}

/// Whether `n` bytes from `off` lie inside the bank, without overflowing.
fn fits_exec(b: &[u8], off: usize, n: usize) -> (r: bool)
    ensures
        r == fits(b@, off as int, n as int),
        b@.len() <= usize::MAX,
{
    let len = b.len();
    match off.checked_add(n) {
        Some(end) => end <= len,
        None => false,
    }
}

/// Moves an offset forward, failing where it would leave `usize`.
fn advance_exec(off: usize, n: usize) -> (r: Result<usize, FrameError>)
    ensures
        match r {
            Ok(o) => advance(off as int, n as int) == Ok::<int, FrameError>(o as int),
            Err(e) => advance(off as int, n as int) == Err::<int, FrameError>(e),
        },
{
    match off.checked_add(n) {
        Some(o) => Ok(o),
        None => Err(FrameError::Overflow),
    }
}

/// Moves to the next even offset when `align` is set.
fn align_if_exec(align: bool, off: usize) -> (r: Result<usize, FrameError>)
    ensures
        match r {
            Ok(o) => align_if(align, off as int) == Ok::<int, FrameError>(o as int),
            Err(e) => align_if(align, off as int) == Err::<int, FrameError>(e),
        },
{
    if align && off & 1 != 0 {
        assert(off % 2 == 1) by (bit_vector)
            requires
                off & 1 != 0,
        ;
        advance_exec(off, 1)
    } else {
        assert(align ==> off % 2 == 0) by (bit_vector)
            requires
                align ==> off & 1 == 0,
        ;
        Ok(off)
    }
}

/// The value of a tile prefix at `off`, and the offset after it.
fn read_prefix_exec(b: &[u8], off: usize, p: TilePrefix) -> (r: Result<(u32, usize), FrameError>)
    ensures
        match r {
            Ok((v, o)) => read_prefix(b@, off as int, p) == Ok::<(u32, int), FrameError>(
                (v, o as int),
            ),
            Err(e) => read_prefix(b@, off as int, p) == Err::<(u32, int), FrameError>(e),
        },
        r matches Ok((v, _)) ==> (p == TilePrefix::High12 ==> v <= 0xFFF_F000) && (p
            == TilePrefix::HighMixed ==> v <= 0xF_FF00),
{
    match p {
        TilePrefix::NoPrefix => Ok((0, off)),
        TilePrefix::Base32 => {
            if !fits_exec(b, off, 4) {
                return Err(FrameError::OutOfBounds);
            }
            Ok((read_be32(b, off), off + 4))
        },
        TilePrefix::High12 => {
            if !fits_exec(b, off, 2) {
                return Err(FrameError::OutOfBounds);
            }
            let hi = read_be16(b, off) as u32;
            assert(hi << 12u32 == hi * 0x1000) by (bit_vector)
                requires
                    hi < 0x1_0000,
            ;
            Ok((hi << 12u32, off + 2))
        },
        TilePrefix::HighMixed => {
            if !fits_exec(b, off, 2) {
                return Err(FrameError::OutOfBounds);
            }
            let b1 = b[off + 1] as u32;
            let b0 = b[off] as u32;
            let v = (b1 << 12u32) | (b0 << 8u32);
            assert(v <= 0xF_FF00) by (bit_vector)
                requires
                    b1 < 0x100,
                    b0 < 0x100,
                    v == (b1 << 12u32) | (b0 << 8u32),
            ;
            Ok((v, off + 2))
        },
    }
}

/// A value below `2^k` has at most `k` set bits.
proof fn lemma_bit_count_bound(x: nat, k: nat)
    requires
        x < pow2(k),
    ensures
        bit_count(x) <= k,
    decreases k,
{
    if x > 0 {
        if k == 0 {
            lemma2_to64();
        } else {
            lemma_pow2_unfold(k);
            lemma_bit_count_bound(x / 2, (k - 1) as nat);
        }
    }
}

/// A 16-bit column mask has at most 16 set bits.
proof fn lemma_bit_count_u16(x: u16)
    ensures
        bit_count(x as nat) <= 16,
{
    lemma2_to64();
    lemma_bit_count_bound(x as nat, 16);
}

/// A bitmap has at most 16 drawn cells per column.
proof fn lemma_bitmap_bits_bound(s: Seq<u16>)
    ensures
        bitmap_bits(s) <= 16 * s.len(),
    decreases s.len(),
{
    if s.len() > 0 {
        lemma_bitmap_bits_bound(s.drop_last());
        lemma_bit_count_u16(s.last());
    }
}

/// The number of set bits of a column mask.
fn count_ones16(x: u16) -> (r: u32)
    ensures
        r == bit_count(x as nat),
{
    proof {
        lemma_bit_count_u16(x);
    }
    let mut v: u16 = x;
    let mut c: u32 = 0;
    while v != 0
        invariant
            c + bit_count(v as nat) == bit_count(x as nat),
            bit_count(x as nat) <= 16,
        decreases v,
    {
        c = c + (v % 2) as u32;
        v = v / 2;
    }
    c
}

/// The number of drawn cells of a bitmap of at most 255 columns.
fn count_bitmap_bits(bitmap: &Vec<u16>) -> (r: usize)
    requires
        bitmap@.len() <= 0xff,
    ensures
        r == bitmap_bits(bitmap@),
{
    let mut total: usize = 0;
    let mut i: usize = 0;
    while i < bitmap.len()
        invariant
            i <= bitmap@.len() <= 0xff,
            total == bitmap_bits(bitmap@.take(i as int)),
        decreases bitmap@.len() - i,
    {
        proof {
            lemma_bitmap_bits_bound(bitmap@.take(i + 1));
            assert(bitmap@.take(i + 1).drop_last() =~= bitmap@.take(i as int));
            assert(bitmap@.take(i + 1).last() == bitmap@[i as int]);
        }
        total = total + count_ones16(bitmap[i]) as usize;
        i = i + 1;
    }
    assert(bitmap@.take(i as int) =~= bitmap@);
    total
}

/// The mask with the top `h` rows drawn, built by shifting a run of `h + 1` ones.
fn full_column_mask(h: u8) -> (r: u16)
    requires
        h <= 16,
    ensures
        r == column_mask(h as nat),
{
    let hh = h as u32;
    let top: u32 = 1u32 << (hh + 1);
    assert(top >= 1) by (bit_vector)
        requires
            hh <= 16,
            top == 1u32 << (hh + 1),
    ;
    let ones: u32 = top - 1;
    let shift: u32 = 16 - hh;
    let wide: u32 = (ones << shift) & 0xffff;
    let ghost low: u32 = 1u32 << shift;
    assert(wide == 0x1_0000 - low && wide < 0x1_0000) by (bit_vector)
        requires
            hh <= 16,
            top == 1u32 << (hh + 1),
            ones == (top - 1) as u32,
            shift == 16 - hh,
            wide == (ones << shift) & 0xffff,
            low == 1u32 << shift,
    ;
    let mask = wide as u16;
    proof {
        lemma_u32_pow2_no_overflow(shift as nat);
        lemma_u32_shl_is_mul(1u32, shift);
    }
    mask
}

/// The column masks of a frame at `off`, and the offset after them.
fn read_bitmap_exec(b: &[u8], off: usize, l: BitmapLayout, w: u8, h: u8) -> (r: Result<
    (Vec<u16>, usize),
    FrameError,
>)
    ensures
        match r {
            Ok((v, o)) => read_bitmap(b@, off as int, l, w, h) == Ok::<(Seq<u16>, int), FrameError>(
                (v@, o as int),
            ),
            Err(e) => read_bitmap(b@, off as int, l, w, h) == Err::<(Seq<u16>, int), FrameError>(e),
        },
{
    let mut v: Vec<u16> = Vec::new();
    let mut k: usize = 0;
    match l {
        BitmapLayout::Words => {
            if !fits_exec(b, off, 2 * w as usize) {
                return Err(FrameError::OutOfBounds);
            }
            while k < w as usize
                invariant
                    k <= w,
                    off + 2 * w <= b@.len() <= usize::MAX,
                    v@ =~= mask_words(b@, off as int, k as nat),
                decreases w - k,
            {
                v.push(read_be16(b, off + 2 * k));
                k = k + 1;
            }
            Ok((v, off + 2 * w as usize))
        },
        BitmapLayout::HighBytes => {
            if !fits_exec(b, off, w as usize) {
                return Err(FrameError::OutOfBounds);
            }
            while k < w as usize
                invariant
                    k <= w,
                    off + w <= b@.len() <= usize::MAX,
                    v@ =~= mask_high_bytes(b@, off as int, k as nat),
                decreases w - k,
            {
                let byte = b[off + k];
                let word = (byte as u16) << 8u16;
                assert(word == (byte as int * 0x100) as u16) by (bit_vector)
                    requires
                        word == (byte as u16) << 8u16,
                ;
                v.push(word);
                k = k + 1;
            }
            Ok((v, off + w as usize))
        },
        BitmapLayout::FullColumns => {
            if h > 16 {
                return Err(FrameError::Overflow);
            }
            let mask = full_column_mask(h);
            while k < w as usize
                invariant
                    k <= w,
                    h <= 16,
                    mask == column_mask(h as nat),
                    v@ =~= repeat_mask(k as nat, column_mask(h as nat)),
                decreases w - k,
            {
                v.push(mask);
                k = k + 1;
            }
            Ok((v, off))
        },
    }
}

/// The number of tiles a frame draws.
fn tile_count_exec(l: BitmapLayout, bitmap: &Vec<u16>, w: u8, h: u8) -> (r: Result<usize, FrameError>)
    requires
        bitmap@.len() == w,
    ensures
        match r {
            Ok(n) => tile_count(l, bitmap@, w, h) == Ok::<nat, FrameError>(n as nat) && n <= 0x1000,
            Err(e) => tile_count(l, bitmap@, w, h) == Err::<nat, FrameError>(e),
        },
{
    match l {
        BitmapLayout::FullColumns => match w.checked_mul(h) {
            Some(n) => Ok(n as usize),
            None => Err(FrameError::Overflow),
        },
        _ => {
            proof {
                lemma_bitmap_bits_bound(bitmap@);
            }
            Ok(count_bitmap_bits(bitmap))
        },
    }
}

/// The bytes that must be present for `n` tiles.
fn tile_bytes_exec(l: TileLayout, n: usize) -> (r: usize)
    requires
        n <= 0x1000,
    ensures
        r == tile_bytes(l, n as nat),
{
    match l {
        TileLayout::Sequential => n,
        TileLayout::Packed24 => 3 * n,
        TileLayout::Packed24Alternating => 3 * n,
        TileLayout::Offset16 => 2 * n,
        TileLayout::Offset8 => n,
    }
}

/// The largest high-bits prefix each tile layout that adds one can get.
pub open spec fn prefix_in_range(l: TileLayout, prefix: u32) -> bool {
    &&& l == TileLayout::Offset16 ==> prefix <= 0xFFF_F000
    &&& l == TileLayout::Offset8 ==> prefix <= 0xF_FF00
}

/// Tile `k` of the tiles stored at `off`.
fn tile_at_exec(b: &[u8], off: usize, l: TileLayout, prefix: u32, n: usize, k: usize) -> (r: u32)
    requires
        k < n <= 0x1000,
        off + tile_bytes(l, n as nat) <= b@.len() <= usize::MAX,
        prefix_in_range(l, prefix),
        l == TileLayout::Sequential ==> prefix + n - 1 <= u32::MAX,
    ensures
        r == tile_at(l, prefix, b@, off as int, k as int),
{
    match l {
        TileLayout::Sequential => prefix + k as u32,
        TileLayout::Packed24 => {
            let i = off + 3 * k;
            ((b[i] as u32) << 12u32) | (read_be16(b, i + 1) as u32)
        },
        TileLayout::Packed24Alternating => {
            let i = off + 3 * k;
            if k % 2 == 0 {
                ((b[i] as u32) << 12u32) | (read_be16(b, i + 1) as u32)
            } else {
                ((b[i + 2] as u32) << 12u32) | (read_be16(b, i) as u32)
            }
        },
        TileLayout::Offset16 => prefix + read_be16(b, off + 2 * k) as u32,
        TileLayout::Offset8 => prefix + b[off + k] as u32,
    }
}

/// The tile numbers of a frame at `off`, and the offset after them.
fn read_tiles_exec(b: &[u8], off: usize, l: TileLayout, prefix: u32, n: usize) -> (r: Result<
    (Vec<u32>, usize),
    FrameError,
>)
    requires
        n <= 0x1000,
        prefix_in_range(l, prefix),
    ensures
        match r {
            Ok((v, o)) => read_tiles(b@, off as int, l, prefix, n as nat) == Ok::<
                (Seq<u32>, int),
                FrameError,
            >((v@, o as int)),
            Err(e) => read_tiles(b@, off as int, l, prefix, n as nat) == Err::<
                (Seq<u32>, int),
                FrameError,
            >(e),
        },
{
    let bytes = tile_bytes_exec(l, n);
    if !fits_exec(b, off, bytes) {
        return Err(FrameError::OutOfBounds);
    }
    if l == TileLayout::Sequential && n > 0 && prefix as u64 + (n - 1) as u64 > u32::MAX as u64 {
        return Err(FrameError::Overflow);
    }
    let mut v: Vec<u32> = Vec::new();
    let mut k: usize = 0;
    while k < n
        invariant
            k <= n <= 0x1000,
            off + tile_bytes(l, n as nat) <= b@.len() <= usize::MAX,
            prefix_in_range(l, prefix),
            l == TileLayout::Sequential ==> prefix + n - 1 <= u32::MAX || n == 0,
            v@ =~= Seq::new(k as nat, |j: int| tile_at(l, prefix, b@, off as int, j)),
        decreases n - k,
    {
        v.push(tile_at_exec(b, off, l, prefix, n, k));
        k = k + 1;
    }
    let end = if l == TileLayout::Sequential {
        off
    } else {
        off + bytes
    };
    Ok((v, end))
}

/// The layouts whose tiles add the high bits of the prefix take them from a
/// prefix that has them.
pub open spec fn layout_consistent(l: FrameLayout) -> bool {
    &&& l.tiles == TileLayout::Offset16 ==> l.prefix == TilePrefix::High12
    &&& l.tiles == TileLayout::Offset8 ==> l.prefix == TilePrefix::HighMixed
}

/// The column masks, tile numbers and end offset of a frame body at `off`.
fn read_frame_body_exec(b: &[u8], off: usize, l: FrameLayout, w: u8, h: u8) -> (r: Result<
    (Vec<u16>, Vec<u32>, usize),
    FrameError,
>)
    requires
        layout_consistent(l),
    ensures
        match r {
            Ok((bitmap, tiles, o)) => read_frame_body(b@, off as int, l, w, h) == Ok::<
                (Seq<u16>, Seq<u32>, int),
                FrameError,
            >((bitmap@, tiles@, o as int)),
            Err(e) => read_frame_body(b@, off as int, l, w, h) == Err::<
                (Seq<u16>, Seq<u32>, int),
                FrameError,
            >(e),
        },
{
    let (prefix, o1) = match read_prefix_exec(b, off, l.prefix) {
        Ok(x) => x,
        Err(e) => return Err(e),
    };
    let (bitmap, o2) = match read_bitmap_exec(b, o1, l.bitmap, w, h) {
        Ok(x) => x,
        Err(e) => return Err(e),
    };
    let o3 = match align_if_exec(l.align_after_bitmap, o2) {
        Ok(x) => x,
        Err(e) => return Err(e),
    };
    let n = match tile_count_exec(l.bitmap, &bitmap, w, h) {
        Ok(x) => x,
        Err(e) => return Err(e),
    };
    let (tiles, o4) = match read_tiles_exec(b, o3, l.tiles, prefix, n) {
        Ok(x) => x,
        Err(e) => return Err(e),
    };
    let o5 = match align_if_exec(l.align_at_end, o4) {
        Ok(x) => x,
        Err(e) => return Err(e),
    };
    Ok((bitmap, tiles, o5))
}

/// What reading the frame-definition table reports, in order.
pub enum FrameEventView {
    /// The header of a character's frame list.
    Character { character: u8, frame_def_ptr: u32, frame_def_size: u16 },
    /// A frame of a character.
    Frame { character: u8, index: u16, draw_type: u8, frame: FrameDefinitionView },
    /// A frame whose header was read but whose body could not be: reading stopped there.
    Unfinished {
        character: u8,
        index: u16,
        draw_type: u8,
        width: u8,
        height: u8,
        prefix_read: bool,
    },
}

/// What reading the frame-definition table reports, in order.
pub enum FrameEvent {
    /// The header of a character's frame list: where its frame definitions are
    /// and how many there are.
    Character { character: u8, frame_def_ptr: u32, frame_def_size: u16 },
    /// Frame `index` of a character, of the given draw type.
    Frame { character: u8, index: u16, draw_type: u8, frame: FrameDefinition },
    /// Frame `index` of a character, of the given draw type, width and height,
    /// whose body could not be read: reading stopped there. `prefix_read` tells
    /// whether the draw type is known and the bytes before its column masks were
    /// there.
    Unfinished {
        character: u8,
        index: u16,
        draw_type: u8,
        width: u8,
        height: u8,
        prefix_read: bool,
    },
}

impl View for FrameEvent {
    type V = FrameEventView;

    open spec fn view(&self) -> FrameEventView {
        match self {
            FrameEvent::Character { character, frame_def_ptr, frame_def_size } => {
                FrameEventView::Character {
                    character: *character,
                    frame_def_ptr: *frame_def_ptr,
                    frame_def_size: *frame_def_size,
                }
            },
            FrameEvent::Frame { character, index, draw_type, frame } => FrameEventView::Frame {
                character: *character,
                index: *index,
                draw_type: *draw_type,
                frame: frame@,
            },
            FrameEvent::Unfinished { character, index, draw_type, width, height, prefix_read } => {
                FrameEventView::Unfinished {
                    character: *character,
                    index: *index,
                    draw_type: *draw_type,
                    width: *width,
                    height: *height,
                    prefix_read: *prefix_read,
                }
            },
        }
    }
}

/// The views of a sequence of events.
pub open spec fn events_view(events: Seq<FrameEvent>) -> Seq<FrameEventView> {
    events.map_values(|e: FrameEvent| e@)
}

/// The frame at `off`, reported as frame `idx` of character `ch`, and the offset
/// after it: four header bytes (palette, draw type, width, height) and a body
/// laid out as its draw type says.
pub open spec fn read_frame(b: Seq<u8>, off: int, ch: u8, idx: u16) -> Result<
    (FrameEventView, int),
    FrameError,
> {
    if !fits(b, off, 4) {
        Err(FrameError::OutOfBounds)
    } else {
        let palette = b[off];
        let draw_type = b[off + 1];
        let width = b[off + 2];
        let height = b[off + 3];
        match spec_frame_layout(draw_type) {
            None => Err(FrameError::UnknownDrawType { character: ch, index: idx, draw_type }),
            Some(l) => match read_frame_body(b, off + 4, l, width, height) {
                Err(e) => Err(e),
                Ok((bitmap, tiles, o)) => Ok(
                    (
                        FrameEventView::Frame {
                            character: ch,
                            index: idx,
                            draw_type,
                            frame: FrameDefinitionView {
                                palette,
                                width,
                                height,
                                bitmap,
                                tile_offset: tiles,
                            },
                        },
                        o,
                    ),
                ),
            },
        }
    }
}

/// What is reported of frame `idx` of character `ch` at `off` when its body
/// cannot be read: its header, when the four header bytes are there.
pub open spec fn unfinished_frame(b: Seq<u8>, off: int, ch: u8, idx: u16) -> Seq<FrameEventView> {
    if fits(b, off, 4) {
        let draw_type = b[off + 1];
        seq![
            FrameEventView::Unfinished {
                character: ch,
                index: idx,
                draw_type,
                width: b[off + 2],
                height: b[off + 3],
                prefix_read: match spec_frame_layout(draw_type) {
                    Some(l) => read_prefix(b, off + 4, l.prefix) is Ok,
                    None => false,
                },
            },
        ]
    } else {
        Seq::empty()
    }
}

/// Frames `idx..size` of character `ch` from `off`: the events reported, and the
/// offset after the last frame or the error that stopped the reading.
pub open spec fn read_frames(b: Seq<u8>, off: int, ch: u8, idx: nat, size: nat) -> (
    Seq<FrameEventView>,
    Result<int, FrameError>,
)
    decreases size - idx,
{
    if idx >= size {
        (Seq::empty(), Ok(off))
    } else {
        match read_frame(b, off, ch, idx as u16) {
            Err(e) => (unfinished_frame(b, off, ch, idx as u16), Err(e)),
            Ok((ev, o)) => {
                let (rest, r) = read_frames(b, o, ch, idx + 1, size);
                (seq![ev] + rest, r)
            },
        }
    }
}

/// Characters `ch..CHARACTER_COUNT` from `off`: each a header (a big-endian
/// pointer and frame count), its frames, and then four bytes per frame skipped.
pub open spec fn read_characters(b: Seq<u8>, off: int, ch: nat) -> (
    Seq<FrameEventView>,
    Result<(), FrameError>,
)
    decreases CHARACTER_COUNT - ch,
{
    if ch >= CHARACTER_COUNT {
        (Seq::empty(), Ok(()))
    } else if !fits(b, off, 6) {
        (Seq::empty(), Err(FrameError::OutOfBounds))
    } else {
        let size = be16(b, off + 4);
        let header = FrameEventView::Character {
            character: ch as u8,
            frame_def_ptr: be32(b, off),
            frame_def_size: size,
        };
        let (frames, r) = read_frames(b, off + 6, ch as u8, 0, size as nat);
        let done = seq![header] + frames;
        match r {
            Err(e) => (done, Err(e)),
            Ok(o) => match advance(o, 4 * size) {
                Err(e) => (done, Err(e)),
                Ok(o2) => {
                    let (rest, r2) = read_characters(b, o2, ch + 1);
                    (done + rest, r2)
                },
            },
        }
    }
}

/// Everything reading the frame-definition table of a (byte-pair-swapped) bank reports.
pub open spec fn spec_parse_frame_bank(b: Seq<u8>) -> (Seq<FrameEventView>, Result<(), FrameError>) {
    read_characters(b, FRAME_TABLE_OFFSET as int, 0)
}

/// What is reported of frame `idx` of character `ch` at `off` when its body
/// cannot be read.
fn unfinished_frame_exec(b: &[u8], off: usize, ch: u8, idx: u16) -> (r: Option<FrameEvent>)
    ensures
        match r {
            Some(e) => unfinished_frame(b@, off as int, ch, idx) == seq![e@],
            None => unfinished_frame(b@, off as int, ch, idx) == Seq::<FrameEventView>::empty(),
        },
{
    if !fits_exec(b, off, 4) {
        return None;
    }
    let draw_type = b[off + 1];
    let prefix_read = match frame_layout(draw_type) {
        Some(l) => match read_prefix_exec(b, off + 4, l.prefix) {
            Ok(_) => true,
            Err(_) => false,
        },
        None => false,
    };
    Some(
        FrameEvent::Unfinished {
            character: ch,
            index: idx,
            draw_type,
            width: b[off + 2],
            height: b[off + 3],
            prefix_read,
        },
    )
}

/// Reads the frame at `off`, reported as frame `idx` of character `ch`.
pub fn read_frame_exec(b: &[u8], off: usize, ch: u8, idx: u16) -> (r: Result<
    (FrameEvent, usize),
    FrameError,
>)
    ensures
        match r {
            Ok((ev, o)) => read_frame(b@, off as int, ch, idx) == Ok::<(FrameEventView, int), FrameError>(
                (ev@, o as int),
            ),
            Err(e) => read_frame(b@, off as int, ch, idx) == Err::<(FrameEventView, int), FrameError>(
                e,
            ),
        },
{
    if !fits_exec(b, off, 4) {
        return Err(FrameError::OutOfBounds);
    }
    let palette_id = b[off];
    let draw_type = b[off + 1];
    let width = b[off + 2];
    let height = b[off + 3];
    let layout = match frame_layout(draw_type) {
        Some(l) => l,
        None => return Err(FrameError::UnknownDrawType { character: ch, index: idx, draw_type }),
    };
    match read_frame_body_exec(b, off + 4, layout, width, height) {
        Ok((bitmap, tiles, o)) => {
            let frame = FrameDefinition::new(palette_id, width, height, bitmap, tiles);
            Ok((FrameEvent::Frame { character: ch, index: idx, draw_type, frame }, o))
        },
        Err(e) => Err(e),
    }
}

/// Everything the frame-definition table reported, in order, and how reading it
/// ended: `Ok` after the last character, or the error that stopped it.
pub struct FrameBank {
    pub events: Vec<FrameEvent>,
    pub outcome: Result<(), FrameError>,
}

proof fn lemma_events_view_push(events: Seq<FrameEvent>, e: FrameEvent)
    ensures
        events_view(events.push(e)) == events_view(events).push(e@),
{
    assert(events_view(events.push(e)) =~= events_view(events).push(e@));
}

/// Reads the frame-definition table of a sprite bank whose byte pairs have been
/// swapped: for each of the `CHARACTER_COUNT` characters, from
/// `FRAME_TABLE_OFFSET` on, its header and its frames. Reading stops at the
/// first error, keeping what was reported before it and, when the frame that
/// failed had its header bytes, that header as an unfinished frame.
pub fn parse_frame_bank(b: &[u8]) -> (r: FrameBank)
    ensures
        (events_view(r.events@), r.outcome) == spec_parse_frame_bank(b@),
{
    let mut events: Vec<FrameEvent> = Vec::new();
    let mut offset: usize = FRAME_TABLE_OFFSET;
    let mut ch: u8 = 0;
    let ghost total = spec_parse_frame_bank(b@);
    assert(events_view(events@) =~= Seq::<FrameEventView>::empty());
    while ch < CHARACTER_COUNT
        invariant
            ch <= CHARACTER_COUNT,
            total == spec_parse_frame_bank(b@),
            total.0 == events_view(events@) + read_characters(b@, offset as int, ch as nat).0,
            total.1 == read_characters(b@, offset as int, ch as nat).1,
        decreases CHARACTER_COUNT - ch,
    {
        let ghost char_start = offset as int;
        let ghost before = events_view(events@);
        if !fits_exec(b, offset, 6) {
            assert(total.0 =~= events_view(events@));
            return FrameBank { events, outcome: Err(FrameError::OutOfBounds) };
        }
        let frame_def_ptr = read_be32(b, offset);
        let size = read_be16(b, offset + 4);
        let header = FrameEvent::Character { character: ch, frame_def_ptr, frame_def_size: size };
        let ghost hv = header@;
        proof {
            lemma_events_view_push(events@, header);
        }
        events.push(header);
        offset = offset + 6;
        let ghost frames_start = offset as int;
        let ghost frames = read_frames(b@, frames_start, ch, 0, size as nat);
        let mut idx: u16 = 0;
        assert(events_view(events@) + read_frames(b@, offset as int, ch, idx as nat, size as nat).0
            =~= before + seq![hv] + frames.0);
        while idx < size
            invariant
                idx <= size,
                ch < CHARACTER_COUNT,
                total == spec_parse_frame_bank(b@),
                total.0 == before + read_characters(b@, char_start, ch as nat).0,
                total.1 == read_characters(b@, char_start, ch as nat).1,
                fits(b@, char_start, 6),
                frames_start == char_start + 6,
                size == be16(b@, char_start + 4),
                hv == (FrameEventView::Character {
                    character: ch,
                    frame_def_ptr: be32(b@, char_start),
                    frame_def_size: size,
                }),
                frames == read_frames(b@, frames_start, ch, 0, size as nat),
                events_view(events@) + read_frames(b@, offset as int, ch, idx as nat, size as nat).0
                    == before + seq![hv] + frames.0,
                read_frames(b@, offset as int, ch, idx as nat, size as nat).1 == frames.1,
            decreases size - idx,
        {
            let ghost here = read_frames(b@, offset as int, ch, idx as nat, size as nat);
            match read_frame_exec(b, offset, ch, idx) {
                Err(e) => {
                    assert(here.0 == unfinished_frame(b@, offset as int, ch, idx));
                    let ghost old_events = events@;
                    match unfinished_frame_exec(b, offset, ch, idx) {
                        Some(u) => {
                            proof {
                                lemma_events_view_push(events@, u);
                            }
                            events.push(u);
                        },
                        None => {},
                    }
                    assert(events_view(events@) =~= events_view(old_events) + here.0);
                    assert(events_view(events@) =~= before + seq![hv] + frames.0);
                    assert(total.0 =~= before + (seq![hv] + frames.0));
                    assert(total.0 =~= events_view(events@));
                    return FrameBank { events, outcome: Err(e) };
                },
                Ok((ev, o)) => {
                    let ghost old_events = events@;
                    proof {
                        lemma_events_view_push(events@, ev);
                    }
                    events.push(ev);
                    offset = o;
                    let ghost next = read_frames(b@, offset as int, ch, (idx + 1) as nat, size as nat);
                    assert(here.0 == seq![ev@] + next.0);
                    assert(events_view(events@) + next.0 =~= events_view(old_events) + here.0);
                },
            }
            idx = idx + 1;
        }
        assert(events_view(events@) =~= before + (seq![hv] + frames.0));
        let skip: usize = 4 * size as usize;
        match offset.checked_add(skip) {
            None => {
                return FrameBank { events, outcome: Err(FrameError::Overflow) };
            },
            Some(o) => {
                offset = o;
            },
        }
        let ghost rest = read_characters(b@, offset as int, (ch + 1) as nat);
        assert(total.0 =~= events_view(events@) + rest.0);
        ch = ch + 1;
    }
    assert(total.0 =~= events_view(events@));
    FrameBank { events, outcome: Ok(()) }
}

/// The bytes of a buffer with each aligned pair swapped (a trailing odd byte stays).
pub open spec fn swap_pairs(s: Seq<u8>) -> Seq<u8> {
    Seq::new(
        s.len(),
        |i: int|
            if i % 2 == 0 {
                if i + 1 < s.len() {
                    s[i + 1]
                } else {
                    s[i]
                }
            } else {
                s[i - 1]
            },
    )
}

/// Swaps the bytes of each aligned pair, turning the little-endian words of a
/// bank into big-endian ones; a trailing odd byte is left as it is.
pub fn swap_byte_pairs(buf: &mut Vec<u8>)
    ensures
        final(buf)@ == swap_pairs(old(buf)@),
        final(buf)@.len() == old(buf)@.len(),
        forall|i: int|
            0 <= i && i + 1 < old(buf)@.len() && i % 2 == 0 ==> #[trigger] final(buf)@[i]
                == old(buf)@[i + 1] && final(buf)@[i + 1] == old(buf)@[i],
        old(buf)@.len() % 2 == 1 ==> final(buf)@[old(buf)@.len() - 1] == old(buf)@[old(buf)@.len()
            - 1],
{
    let len = buf.len();
    let mut i: usize = 0;
    while i + 1 < len
        invariant
            len == buf@.len() == old(buf)@.len(),
            i % 2 == 0,
            i <= len,
            forall|j: int| 0 <= j < i ==> buf@[j] == #[trigger] swap_pairs(old(buf)@)[j],
            forall|j: int| i <= j < len ==> buf@[j] == old(buf)@[j],
        decreases len - i,
    {
        let a = buf[i];
        let b = buf[i + 1];
        buf.set(i, b);
        buf.set(i + 1, a);
        i = i + 2;
    }
    assert(buf@ =~= swap_pairs(old(buf)@));
}

/// Swapping the byte pairs exchanges the two bytes of every complete aligned pair
/// and keeps a trailing odd byte.
pub proof fn lemma_swap_pairs_swaps(s: Seq<u8>)
    ensures
        swap_pairs(s).len() == s.len(),
        forall|i: int|
            0 <= i && i + 1 < s.len() && i % 2 == 0 ==> #[trigger] swap_pairs(s)[i] == s[i + 1]
                && swap_pairs(s)[i + 1] == s[i],
        s.len() % 2 == 1 ==> swap_pairs(s)[s.len() - 1] == s[s.len() - 1],
{
}

/// Swapping the byte pairs twice gives back the original bytes.
pub proof fn lemma_swap_pairs_involution(s: Seq<u8>)
    ensures
        swap_pairs(swap_pairs(s)) == s,
{
    assert(swap_pairs(swap_pairs(s)) =~= s);
}

/// A frame event is well formed when, for a frame, it has one column mask per
/// column and one tile per drawn cell.
pub open spec fn frame_event_well_formed(e: FrameEventView) -> bool {
    e matches FrameEventView::Frame { frame, .. } ==> {
        &&& frame.bitmap.len() == frame.width
        &&& frame.tile_offset.len() == bitmap_bits(frame.bitmap)
    }
}

/// `2^n - 1` has `n` set bits.
proof fn lemma_bit_count_all_ones(n: nat)
    ensures
        bit_count((pow2(n) - 1) as nat) == n,
    decreases n,
{
    lemma_pow2_pos(n);
    if n > 0 {
        lemma_pow2_unfold(n);
        lemma_pow2_pos((n - 1) as nat);
        lemma_bit_count_all_ones((n - 1) as nat);
        let x = (pow2(n) - 1) as nat;
        assert(x % 2 == 1 && x / 2 == (pow2((n - 1) as nat) - 1) as nat);
    } else {
        lemma2_to64();
    }
}

/// `2^n - 2^k` has `n - k` set bits.
proof fn lemma_bit_count_band(n: nat, k: nat)
    requires
        k <= n,
    ensures
        bit_count((pow2(n) - pow2(k)) as nat) == n - k,
    decreases k,
{
    if k == 0 {
        lemma2_to64();
        lemma_bit_count_all_ones(n);
    } else {
        lemma_pow2_unfold(n);
        lemma_pow2_unfold(k);
        if k < n {
            lemma_pow2_strictly_increases((k - 1) as nat, (n - 1) as nat);
            lemma_pow2_strictly_increases(k, n);
        }
        lemma_bit_count_band((n - 1) as nat, (k - 1) as nat);
        let x = (pow2(n) - pow2(k)) as nat;
        assert(x % 2 == 0 && x / 2 == (pow2((n - 1) as nat) - pow2((k - 1) as nat)) as nat);
    }
}

/// The mask of `h` full rows has `h` drawn cells.
proof fn lemma_column_mask_bits(h: nat)
    requires
        h <= 16,
    ensures
        bit_count(column_mask(h) as nat) == h,
{
    lemma2_to64();
    lemma_pow2_pos((16 - h) as nat);
    if h > 0 {
        lemma_pow2_strictly_increases((16 - h) as nat, 16);
    }
    lemma_bit_count_band(16, (16 - h) as nat);
}

/// `w` equal columns of `c` drawn cells have `w * c` drawn cells.
proof fn lemma_bitmap_bits_constant(w: nat, m: u16)
    ensures
        bitmap_bits(repeat_mask(w, m)) == w * bit_count(m as nat),
    decreases w,
{
    if w > 0 {
        let s = repeat_mask(w, m);
        let t = repeat_mask((w - 1) as nat, m);
        assert(s.drop_last() =~= t);
        assert(s.last() == m);
        lemma_bitmap_bits_constant((w - 1) as nat, m);
        let c = bit_count(m as nat);
        assert(bitmap_bits(s) == bitmap_bits(t) + c);
        assert((w - 1) * c + c == w * c) by (nonlinear_arith);
        assert(bitmap_bits(s) == w * c);
    } else {
        assert(repeat_mask(w, m).len() == 0);
    }
}

/// A frame that reads without error is well formed.
proof fn lemma_read_frame_well_formed(b: Seq<u8>, off: int, ch: u8, idx: u16)
    ensures
        read_frame(b, off, ch, idx) matches Ok((ev, _)) ==> frame_event_well_formed(ev),
{
    if fits(b, off, 4) {
        let w = b[off + 2];
        let h = b[off + 3];
        if let Some(l) = spec_frame_layout(b[off + 1]) {
            if l.bitmap == BitmapLayout::FullColumns && h <= 16 {
                lemma_column_mask_bits(h as nat);
                lemma_bitmap_bits_constant(w as nat, column_mask(h as nat));
            }
        }
    }
}

/// Every frame of a frame list is well formed.
proof fn lemma_read_frames_well_formed(b: Seq<u8>, off: int, ch: u8, idx: nat, size: nat)
    ensures
        forall|k: int|
            0 <= k < read_frames(b, off, ch, idx, size).0.len() ==> frame_event_well_formed(
                #[trigger] read_frames(b, off, ch, idx, size).0[k],
            ),
    decreases size - idx,
{
    if idx < size {
        lemma_read_frame_well_formed(b, off, ch, idx as u16);
        if let Ok((ev, o)) = read_frame(b, off, ch, idx as u16) {
            lemma_read_frames_well_formed(b, o, ch, idx + 1, size);
            let rest = read_frames(b, o, ch, idx + 1, size).0;
            assert forall|k: int|
                0 <= k < read_frames(b, off, ch, idx, size).0.len() implies frame_event_well_formed(
                #[trigger] read_frames(b, off, ch, idx, size).0[k],
            ) by {
                if k > 0 {
                    assert(read_frames(b, off, ch, idx, size).0[k] == rest[k - 1]);
                }
            }
        }
    }
}

/// Every frame reported from the characters on is well formed.
proof fn lemma_read_characters_well_formed(b: Seq<u8>, off: int, ch: nat)
    ensures
        forall|k: int|
            0 <= k < read_characters(b, off, ch).0.len() ==> frame_event_well_formed(
                #[trigger] read_characters(b, off, ch).0[k],
            ),
    decreases CHARACTER_COUNT - ch,
{
    if ch < CHARACTER_COUNT && fits(b, off, 6) {
        let size = be16(b, off + 4);
        lemma_read_frames_well_formed(b, off + 6, ch as u8, 0, size as nat);
        let (frames, r) = read_frames(b, off + 6, ch as u8, 0, size as nat);
        let evs = read_characters(b, off, ch).0;
        let header = FrameEventView::Character {
            character: ch as u8,
            frame_def_ptr: be32(b, off),
            frame_def_size: size,
        };
        let done = seq![header] + frames;
        assert forall|k: int| 0 <= k < done.len() implies frame_event_well_formed(
            #[trigger] done[k],
        ) by {
            if k >= 1 {
                assert(done[k] == frames[k - 1]);
            }
        }
        if let Ok(o) = r {
            if let Ok(o2) = advance(o, 4 * size) {
                lemma_read_characters_well_formed(b, o2, ch + 1);
                let rest = read_characters(b, o2, ch + 1).0;
                assert(evs == done + rest);
                assert forall|k: int| 0 <= k < evs.len() implies frame_event_well_formed(
                    #[trigger] evs[k],
                ) by {
                    if k < done.len() {
                        assert(evs[k] == done[k]);
                    } else {
                        assert(evs[k] == rest[k - done.len()]);
                    }
                }
            }
        }
    }
}

/// Every frame the frame-definition table reports has one column mask per column
/// and exactly one tile per drawn cell of its masks, whatever its draw type.
pub proof fn lemma_frame_bank_well_formed(b: Seq<u8>)
    ensures
        forall|k: int|
            0 <= k < spec_parse_frame_bank(b).0.len() ==> frame_event_well_formed(
                #[trigger] spec_parse_frame_bank(b).0[k],
            ),
{
    lemma_read_characters_well_formed(b, FRAME_TABLE_OFFSET as int, 0);
}

/// The number of character headers among the events.
pub open spec fn character_count(events: Seq<FrameEventView>) -> nat
    decreases events.len(),
{
    if events.len() == 0 {
        0
    } else {
        character_count(events.drop_last()) + if events.last() is Character {
            1nat
        } else {
            0nat
        }
    }
}

proof fn lemma_character_count_add(a: Seq<FrameEventView>, b: Seq<FrameEventView>)
    ensures
        character_count(a + b) == character_count(a) + character_count(b),
    decreases b.len(),
{
    if b.len() == 0 {
        assert(a + b =~= a);
    } else {
        lemma_character_count_add(a, b.drop_last());
        assert((a + b).drop_last() =~= a + b.drop_last());
        assert((a + b).last() == b.last());
    }
}

/// A frame list reports frames only.
proof fn lemma_read_frames_no_characters(b: Seq<u8>, off: int, ch: u8, idx: nat, size: nat)
    ensures
        character_count(read_frames(b, off, ch, idx, size).0) == 0,
    decreases size - idx,
{
    if idx < size {
        if let Ok((ev, o)) = read_frame(b, off, ch, idx as u16) {
            lemma_read_frames_no_characters(b, o, ch, idx + 1, size);
            let rest = read_frames(b, o, ch, idx + 1, size).0;
            assert(ev is Frame);
            lemma_character_count_add(seq![ev], rest);
            assert(seq![ev].drop_last() =~= Seq::<FrameEventView>::empty());
            assert(character_count(Seq::<FrameEventView>::empty()) == 0);
            assert(character_count(seq![ev]) == 0);
        } else {
            let u = unfinished_frame(b, off, ch, idx as u16);
            if u.len() > 0 {
                assert(u.drop_last() =~= Seq::<FrameEventView>::empty());
                assert(character_count(Seq::<FrameEventView>::empty()) == 0);
            }
        }
    }
}

/// Reading the characters from `ch` on to the end reports one header for each.
proof fn lemma_read_characters_count(b: Seq<u8>, off: int, ch: nat)
    requires
        ch <= CHARACTER_COUNT,
    ensures
        read_characters(b, off, ch).1 is Ok ==> character_count(read_characters(b, off, ch).0)
            == CHARACTER_COUNT - ch,
    decreases CHARACTER_COUNT - ch,
{
    if ch < CHARACTER_COUNT && fits(b, off, 6) {
        let size = be16(b, off + 4);
        lemma_read_frames_no_characters(b, off + 6, ch as u8, 0, size as nat);
        let (frames, r) = read_frames(b, off + 6, ch as u8, 0, size as nat);
        let header = FrameEventView::Character {
            character: ch as u8,
            frame_def_ptr: be32(b, off),
            frame_def_size: size,
        };
        lemma_character_count_add(seq![header], frames);
        assert(seq![header].drop_last() =~= Seq::<FrameEventView>::empty());
        assert(character_count(Seq::<FrameEventView>::empty()) == 0);
        assert(character_count(seq![header]) == 1);
        if let Ok(o) = r {
            if let Ok(o2) = advance(o, 4 * size) {
                lemma_read_characters_count(b, o2, ch + 1);
                lemma_character_count_add(seq![header] + frames, read_characters(b, o2, ch + 1).0);
            }
        }
    }
}

/// A frame-definition table read to its end reports exactly one header for each
/// of the `CHARACTER_COUNT` characters.
pub proof fn lemma_frame_bank_character_count(b: Seq<u8>)
    ensures
        spec_parse_frame_bank(b).1 is Ok ==> character_count(spec_parse_frame_bank(b).0)
            == CHARACTER_COUNT,
{
    lemma_read_characters_count(b, FRAME_TABLE_OFFSET as int, 0);
}

/// A character's frame list read without error reports one frame per declared
/// frame, tagged with the character and numbered in order.
pub proof fn lemma_read_frames_complete(b: Seq<u8>, off: int, ch: u8, idx: nat, size: nat)
    requires
        idx <= size,
    ensures
        read_frames(b, off, ch, idx, size).1 is Ok ==> {
            let evs = read_frames(b, off, ch, idx, size).0;
            &&& evs.len() == size - idx
            &&& forall|k: int|
                0 <= k < evs.len() ==> (#[trigger] evs[k] matches FrameEventView::Frame {
                    character,
                    index,
                    ..
                } && character == ch && index == (idx + k) as u16)
        },
    decreases size - idx,
{
    if idx < size {
        if let Ok((ev, o)) = read_frame(b, off, ch, idx as u16) {
            lemma_read_frames_complete(b, o, ch, idx + 1, size);
            let evs = read_frames(b, off, ch, idx, size).0;
            let rest = read_frames(b, o, ch, idx + 1, size).0;
            if read_frames(b, off, ch, idx, size).1 is Ok {
                assert forall|k: int| 0 <= k < evs.len() implies (#[trigger] evs[k]
                    matches FrameEventView::Frame { character, index, .. } && character == ch
                    && index == (idx + k) as u16) by {
                    if k > 0 {
                        assert(evs[k] == rest[k - 1]);
                    }
                }
            }
        }
    }
}

} // verus!
