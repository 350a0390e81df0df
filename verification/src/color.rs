use vstd::prelude::*;

verus! {

/// The colour formats a palette entry can be stored in.
pub enum ColorMode {
    /// A Neo Geo palette word: dark bit 15, the low bits of red, green and blue in
    /// bits 14, 13 and 12, and the 4-bit main parts of red, green and blue in
    /// bits 8..12, 4..8 and 0..4.
    RGB666NeoGeo(u16),
}

/// 8-bit intensities of the 32 Neo Geo channel levels: entry `2 * level` is the
/// dark variant of a level and entry `2 * level + 1` its bright variant.
pub const NG_COLOR_VALS: [u8; 64] = [
    0x00, 0x00, 0x08, 0x08, 0x0e, 0x0e, 0x15, 0x16,
    0x1e, 0x1e, 0x26, 0x26, 0x2c, 0x2c, 0x33, 0x34,
    0x40, 0x41, 0x47, 0x49, 0x4d, 0x4f, 0x55, 0x56,
    0x5e, 0x5f, 0x65, 0x67, 0x6b, 0x6d, 0x73, 0x75,
    0x88, 0x8a, 0x90, 0x92, 0x96, 0x98, 0x9e, 0xa0,
    0xa6, 0xa9, 0xae, 0xb0, 0xb4, 0xb6, 0xbc, 0xbe,
    0xc8, 0xcb, 0xd0, 0xd3, 0xd6, 0xd9, 0xdd, 0xe1,
    0xe6, 0xe9, 0xee, 0xf1, 0xf4, 0xf7, 0xfb, 0xff,
];

/// The intensity table as a sequence.
pub open spec fn ng_table() -> Seq<u8> {
    NG_COLOR_VALS@
}

/// The intensity table never decreases, and every dark entry is brighter than
/// everything that comes before it: the levels do not overlap.
pub proof fn lemma_ng_table_ordered()
    ensures
        ng_table().len() == 64,
        forall|i: int, j: int|
            0 <= i <= j < 64 ==> #[trigger] ng_table()[i] <= #[trigger] ng_table()[j],
        forall|i: int, l: int|
            0 <= i < 2 * l && l < 32 ==> #[trigger] ng_table()[i] < #[trigger] ng_table()[2 * l],
        ng_table()[63] == 0xff,
{
}

/// Bit 15 of a Neo Geo colour word.
pub open spec fn ng_dark(c: u16) -> int {
    c as int / 0x8000
}

/// The 5-bit red level of a Neo Geo colour word (main part doubled plus its low bit).
pub open spec fn ng_red_level(c: u16) -> int {
    ((c as int / 0x100) % 16) * 2 + (c as int / 0x4000) % 2
}

/// The 5-bit green level of a Neo Geo colour word.
pub open spec fn ng_green_level(c: u16) -> int {
    ((c as int / 0x10) % 16) * 2 + (c as int / 0x2000) % 2
}

/// The 5-bit blue level of a Neo Geo colour word.
pub open spec fn ng_blue_level(c: u16) -> int {
    (c as int % 16) * 2 + (c as int / 0x1000) % 2
}

/// Index into the intensity table of a channel level (0..32): the bright entry
/// `2 * level + 1`, or the dark entry `2 * level` when the dark bit is set.
pub open spec fn ng_index(level: int, dark: int) -> int {
    2 * level + 1 - dark
}

/// An opaque 32-bit colour with red in the low byte, then green, then blue, and
/// alpha 0xFF in the high byte.
pub open spec fn pack_argb8888(red: int, green: int, blue: int) -> int {
    0xFF00_0000 + blue * 0x1_0000 + green * 0x100 + red
}

/// What decoding a Neo Geo colour word gives.
pub open spec fn spec_rgb666neogeo_to_argb8888(c: u16) -> int {
    pack_argb8888(
        ng_table()[ng_index(ng_red_level(c), ng_dark(c))] as int,
        ng_table()[ng_index(ng_green_level(c), ng_dark(c))] as int,
        ng_table()[ng_index(ng_blue_level(c), ng_dark(c))] as int,
    )
}

/// The first table index at or after `i` whose intensity reaches `x` (0 if none).
pub open spec fn first_index_at_least(x: u8, i: nat) -> nat
    decreases 64 - i,
{
    if i >= 64 {
        0
    } else if ng_table()[i as int] >= x {
        i
    } else {
        first_index_at_least(x, i + 1)
    }
}

/// The table index an 8-bit intensity is quantised to: the first entry that
/// reaches it.
pub open spec fn ng_quantize(x: u8) -> nat {
    first_index_at_least(x, 0)
}

/// A Neo Geo colour word from three channel levels, with the dark bit clear.
pub open spec fn ng_encode_levels(red: int, green: int, blue: int) -> int {
    (red % 2) * 0x4000 + (green % 2) * 0x2000 + (blue % 2) * 0x1000 + (red / 2) * 0x100
        + (green / 2) * 0x10 + blue / 2
}

/// The red byte of a 32-bit colour (the low byte).
pub open spec fn argb_red(c: u32) -> u8 {
    (c as int % 0x100) as u8
}

/// The green byte of a 32-bit colour.
pub open spec fn argb_green(c: u32) -> u8 {
    ((c as int / 0x100) % 0x100) as u8
}

/// The blue byte of a 32-bit colour.
pub open spec fn argb_blue(c: u32) -> u8 {
    ((c as int / 0x1_0000) % 0x100) as u8
}

/// What encoding a 32-bit colour as a Neo Geo colour word gives.
pub open spec fn spec_argb8888_to_rgb666neogeo(c: u32) -> int {
    ng_encode_levels(
        (ng_quantize(argb_red(c)) / 2) as int,
        (ng_quantize(argb_green(c)) / 2) as int,
        (ng_quantize(argb_blue(c)) / 2) as int,
    )
}

/// Quantises an 8-bit intensity: the first table index whose intensity reaches it.
pub fn conv_8_to_neogeo(in_col: u8) -> (r: usize)
    ensures
        r == ng_quantize(in_col),
        r < 64,
        ng_table()[r as int] >= in_col,
        forall|j: int| 0 <= j < r ==> ng_table()[j] < in_col,
{
    let mut i: usize = 0;
    while i < 64
        invariant
            i <= 64,
            ng_quantize(in_col) == first_index_at_least(in_col, i as nat),
            forall|j: int| 0 <= j < i ==> ng_table()[j] < in_col,
        decreases 64 - i,
    {
        if NG_COLOR_VALS[i] >= in_col {
            return i;
        }
        i = i + 1;
    }
    assert(ng_table()[63] == 0xff);
    0
}

/// For three table indices all below 2, whether each entry's intensity differs
/// from that of the entry after it; `false` when any index is 2 or more. Only
/// entry 1 (0x00, the bright entry of level 0) differs from its successor (0x08,
/// the dark entry of level 1), so this holds exactly when all three are 1.
pub fn is_rgb666neogeo_dark(r: usize, g: usize, b: usize) -> (res: bool)
    ensures
        res == (r == 1 && g == 1 && b == 1),
{
    let mut r_even = r / 2 == 0;
    let mut g_even = g / 2 == 0;
    let mut b_even = b / 2 == 0;

    if r_even && g_even && b_even {
        r_even = NG_COLOR_VALS[r] != NG_COLOR_VALS[r + 1];
        g_even = NG_COLOR_VALS[g] != NG_COLOR_VALS[g + 1];
        b_even = NG_COLOR_VALS[b] != NG_COLOR_VALS[b + 1];
    }
    r_even && g_even && b_even
}

/// The shifts and masks of a Neo Geo colour word read its fields.
proof fn lemma_neogeo_fields(c: u16)
    ensures
        (c >> 0xfu16) & 0x01u16 == c as int / 0x8000,
        (c >> 0xeu16) & 0x01u16 == (c as int / 0x4000) % 2,
        (c >> 0xdu16) & 0x01u16 == (c as int / 0x2000) % 2,
        (c >> 0xcu16) & 0x01u16 == (c as int / 0x1000) % 2,
        (c >> 0x8u16) & 0x0fu16 == (c as int / 0x100) % 16,
        (c >> 0x4u16) & 0x0fu16 == (c as int / 0x10) % 16,
        (c >> 0x0u16) & 0x0fu16 == c as int % 16,
{
    assert((c >> 0xfu16) & 0x01u16 == c / 0x8000) by (bit_vector);
    assert((c >> 0xeu16) & 0x01u16 == (c / 0x4000) % 2) by (bit_vector);
    assert((c >> 0xdu16) & 0x01u16 == (c / 0x2000) % 2) by (bit_vector);
    assert((c >> 0xcu16) & 0x01u16 == (c / 0x1000) % 2) by (bit_vector);
    assert((c >> 0x8u16) & 0x0fu16 == (c / 0x100) % 16) by (bit_vector);
    assert((c >> 0x4u16) & 0x0fu16 == (c / 0x10) % 16) by (bit_vector);
    assert((c >> 0x0u16) & 0x0fu16 == c % 16) by (bit_vector);
}

/// Or-ing the shifted bytes of a 32-bit colour adds them.
proof fn lemma_pack_argb8888(a: u32, b: u32, g: u32, r: u32)
    requires
        a < 0x100,
        b < 0x100,
        g < 0x100,
        r < 0x100,
    ensures
        (a << 24u32) | (b << 16u32) | (g << 8u32) | (r << 0u32) == a * 0x100_0000 + b * 0x1_0000
            + g * 0x100 + r,
{
    assert((a << 24u32) | (b << 16u32) | (g << 8u32) | (r << 0u32) == a * 0x100_0000 + b
        * 0x1_0000 + g * 0x100 + r) by (bit_vector)
        requires
            a < 0x100,
            b < 0x100,
            g < 0x100,
            r < 0x100,
    ;
}

/// Decodes a Neo Geo colour word to an opaque 32-bit colour: each channel level
/// picks its bright intensity, or its dark one when the dark bit is set.
pub fn conv_rgb666neogeo_to_argb8888(in_col: u16) -> (r: u32)
    ensures
        r == spec_rgb666neogeo_to_argb8888(in_col),
        r / 0x100_0000 == 0xFF,
{
    proof {
        lemma_neogeo_fields(in_col);
    }
    let darkbit: u16 = (in_col >> 0xf) & 0x01;
    let red1: u16 = ((in_col >> 0xe) & 0x01) * 2;
    let redm: u16 = ((in_col >> 0x8) & 0x0f) * 4;
    let green1: u16 = ((in_col >> 0xd) & 0x01) * 2;
    let greenm: u16 = ((in_col >> 0x4) & 0x0f) * 4;
    let blue1: u16 = ((in_col >> 0xc) & 0x01) * 2;
    let bluem: u16 = ((in_col >> 0x0) & 0x0f) * 4;
    let auxa: u32 = 0xFF;

    let blue: u32 = NG_COLOR_VALS[(((blue1 + bluem) + 1) - darkbit) as usize] as u32;
    let green: u32 = NG_COLOR_VALS[(((green1 + greenm) + 1) - darkbit) as usize] as u32;
    let red: u32 = NG_COLOR_VALS[(((red1 + redm) + 1) - darkbit) as usize] as u32;

    proof {
        lemma_pack_argb8888(auxa, blue, green, red);
    }
    (auxa << 24) | (blue << 16) | (green << 8) | (red << 0)
}

/// The low-bit and main-part fields that the encoder builds from a table index.
proof fn lemma_index_fields(x: usize)
    requires
        x < 64,
    ensures
        (((x / 2) & 0x1) << 0xe) as u16 == ((x / 2) % 2) * 0x4000,
        (((x / 2) & 0x1) << 0xd) as u16 == ((x / 2) % 2) * 0x2000,
        (((x / 2) & 0x1) << 0xc) as u16 == ((x / 2) % 2) * 0x1000,
        (((x / 4) & 0xf) << 0x8) as u16 == (x / 4) * 0x100,
        (((x / 4) & 0xf) << 0x4) as u16 == (x / 4) * 0x10,
        (((x / 4) & 0xf) << 0x0) as u16 == x / 4,
{
    assert((((x / 2) & 0x1) << 0xe) as u16 == ((x / 2) % 2) * 0x4000) by (bit_vector)
        requires x < 64;
    assert((((x / 2) & 0x1) << 0xd) as u16 == ((x / 2) % 2) * 0x2000) by (bit_vector)
        requires x < 64;
    assert((((x / 2) & 0x1) << 0xc) as u16 == ((x / 2) % 2) * 0x1000) by (bit_vector)
        requires x < 64;
    assert((((x / 4) & 0xf) << 0x8) as u16 == (x / 4) * 0x100) by (bit_vector)
        requires x < 64;
    assert((((x / 4) & 0xf) << 0x4) as u16 == (x / 4) * 0x10) by (bit_vector)
        requires x < 64;
    assert((((x / 4) & 0xf) << 0x0) as u16 == x / 4) by (bit_vector)
        requires x < 64;
}

/// Or-ing the six disjoint fields of a Neo Geo colour word adds them.
proof fn lemma_or_six(r1: u16, rm: u16, g1: u16, gm: u16, b1: u16, bm: u16)
    requires
        r1 == 0 || r1 == 0x4000,
        g1 == 0 || g1 == 0x2000,
        b1 == 0 || b1 == 0x1000,
        rm % 0x100 == 0 && rm < 0x1000,
        gm % 0x10 == 0 && gm < 0x100,
        bm < 0x10,
    ensures
        r1 | rm | g1 | gm | b1 | bm == r1 + rm + g1 + gm + b1 + bm,
        r1 + rm + g1 + gm + b1 + bm < 0x8000,
{
    assert(r1 | rm | g1 | gm | b1 | bm == r1 + rm + g1 + gm + b1 + bm) by (bit_vector)
        requires
            r1 == 0 || r1 == 0x4000,
            g1 == 0 || g1 == 0x2000,
            b1 == 0 || b1 == 0x1000,
            rm % 0x100 == 0 && rm < 0x1000,
            gm % 0x10 == 0 && gm < 0x100,
            bm < 0x10,
    ;
}

/// The masks and shifts of a 32-bit colour read its bytes.
proof fn lemma_argb_bytes(c: u32)
    ensures
        (c & 0x00FF0000) >> 16u32 == argb_blue(c),
        (c & 0x0000FF00) >> 8u32 == argb_green(c),
        c & 0x000000FF == argb_red(c),
{
    assert((c & 0x00FF0000) >> 16u32 == (c / 0x1_0000) % 0x100) by (bit_vector);
    assert((c & 0x0000FF00) >> 8u32 == (c / 0x100) % 0x100) by (bit_vector);
    assert(c & 0x000000FF == c % 0x100) by (bit_vector);
}

/// Encodes an opaque 32-bit colour as a Neo Geo colour word: each channel byte is
/// quantised to the first table entry that reaches it, and that entry's level is
/// stored; the dark bit is left clear.
pub fn conv_argb8888_to_rgb666neogeo(in_col: u32) -> (r: u16)
    ensures
        r == spec_argb8888_to_rgb666neogeo(in_col),
        r < 0x8000,
{
    let auxb: u32 = (in_col & 0x00FF0000) >> 16;
    let auxg: u32 = (in_col & 0x0000FF00) >> 8;
    let auxr: u32 = in_col & 0x000000FF;
    proof {
        lemma_argb_bytes(in_col);
    }

    let red = conv_8_to_neogeo(auxr as u8);
    let green = conv_8_to_neogeo(auxg as u8);
    let blue = conv_8_to_neogeo(auxb as u8);

    let red1 = (((red / 2) & 0x1) << 0xe) as u16;
    let red_main = (((red / 4) & 0xf) << 0x8) as u16;
    let green1 = (((green / 2) & 0x1) << 0xd) as u16;
    let green_main = (((green / 4) & 0xf) << 0x4) as u16;
    let blue1 = (((blue / 2) & 0x1) << 0xc) as u16;
    let blue_main = (((blue / 4) & 0xf) << 0x0) as u16;

    proof {
        lemma_index_fields(red);
        lemma_index_fields(green);
        lemma_index_fields(blue);
        lemma_or_six(red1, red_main, green1, green_main, blue1, blue_main);
    }
    assert(spec_argb8888_to_rgb666neogeo(in_col) == ng_encode_levels(
        (red / 2) as int,
        (green / 2) as int,
        (blue / 2) as int,
    ));
    assert(red / 4 == (red / 2) / 2 && green / 4 == (green / 2) / 2 && blue / 4 == (blue / 2) / 2);
    red1 | red_main | green1 | green_main | blue1 | blue_main
}

/// Decodes a colour in any supported mode to an opaque 32-bit colour.
pub fn conv_to_argb8888(col: ColorMode) -> (r: u32)
    ensures
        match col {
            ColorMode::RGB666NeoGeo(c) => r == spec_rgb666neogeo_to_argb8888(c),
        },
{
    match col {
        ColorMode::RGB666NeoGeo(in_col) => conv_rgb666neogeo_to_argb8888(in_col),
    }
}

/// `first_index_at_least(x, i)` is the least index from `i` on whose intensity
/// reaches `x`.
proof fn lemma_first_index_at_least(x: u8, i: nat)
    requires
        i < 64,
    ensures
        ({
            let q = first_index_at_least(x, i);
            &&& i <= q < 64
            &&& ng_table()[q as int] >= x
            &&& forall|j: int| i <= j < q ==> ng_table()[j] < x
        }),
    decreases 64 - i,
{
    lemma_ng_table_ordered();
    if i < 64 && ng_table()[i as int] < x {
        lemma_first_index_at_least(x, i + 1);
    }
}

/// Quantising the intensity of table entry `k` lands on an entry of the same level.
pub proof fn lemma_quantize_table_entry(k: int)
    requires
        0 <= k < 64,
    ensures
        ng_quantize(ng_table()[k]) / 2 == k / 2,
{
    lemma_ng_table_ordered();
    let x = ng_table()[k];
    lemma_first_index_at_least(x, 0);
    let q = ng_quantize(x) as int;
    let l = k / 2;
    if q < 2 * l {
        assert(ng_table()[q] < ng_table()[2 * l]);
        assert(ng_table()[2 * l] <= ng_table()[k]);
    }
}

/// The bytes of a packed opaque 32-bit colour are the channels it was packed from.
proof fn lemma_unpack_argb8888(red: u32, green: u32, blue: u32)
    requires
        red < 0x100,
        green < 0x100,
        blue < 0x100,
    ensures
        ({
            let c = pack_argb8888(red as int, green as int, blue as int) as u32;
            &&& argb_red(c) == red
            &&& argb_green(c) == green
            &&& argb_blue(c) == blue
        }),
{
    let c: u32 = (0xFF00_0000 + blue * 0x1_0000 + green * 0x100 + red) as u32;
    assert(c % 0x100 == red && (c / 0x100) % 0x100 == green && (c / 0x1_0000) % 0x100 == blue)
        by (bit_vector)
        requires
            red < 0x100,
            green < 0x100,
            blue < 0x100,
            c == (0xFF00_0000 + blue * 0x1_0000 + green * 0x100 + red) as u32,
    ;
}

/// A Neo Geo colour word without its dark bit is the sum of its fields.
proof fn lemma_neogeo_split(c: u16)
    ensures
        c as int % 0x8000 == ((c as int / 0x4000) % 2) * 0x4000 + ((c as int / 0x2000) % 2) * 0x2000
            + ((c as int / 0x1000) % 2) * 0x1000 + ((c as int / 0x100) % 16) * 0x100 + ((c as int
            / 0x10) % 16) * 0x10 + c as int % 16,
{
    assert(c % 0x8000 == ((c / 0x4000) % 2) * 0x4000 + ((c / 0x2000) % 2) * 0x2000 + ((c / 0x1000)
        % 2) * 0x1000 + ((c / 0x100) % 16) * 0x100 + ((c / 0x10) % 16) * 0x10 + c % 16)
        by (bit_vector);
}

/// Encoding the decoded colour of a Neo Geo colour word gives back the word
/// with its dark bit cleared.
pub proof fn lemma_neogeo_round_trip(c: u16)
    ensures
        spec_argb8888_to_rgb666neogeo(spec_rgb666neogeo_to_argb8888(c) as u32) == c as int % 0x8000,
{
    let d = ng_dark(c);
    let ri = ng_index(ng_red_level(c), d);
    let gi = ng_index(ng_green_level(c), d);
    let bi = ng_index(ng_blue_level(c), d);
    lemma_unpack_argb8888(ng_table()[ri] as u32, ng_table()[gi] as u32, ng_table()[bi] as u32);
    lemma_quantize_table_entry(ri);
    lemma_quantize_table_entry(gi);
    lemma_quantize_table_entry(bi);
    lemma_neogeo_split(c);
    let a = spec_rgb666neogeo_to_argb8888(c) as u32;
    assert(ng_quantize(argb_red(a)) / 2 == ng_red_level(c));
    assert(ng_quantize(argb_green(a)) / 2 == ng_green_level(c));
    assert(ng_quantize(argb_blue(a)) / 2 == ng_blue_level(c));
    let rl = ng_red_level(c);
    let gl = ng_green_level(c);
    let bl = ng_blue_level(c);
    assert(rl % 2 == (c as int / 0x4000) % 2 && rl / 2 == (c as int / 0x100) % 16);
    assert(gl % 2 == (c as int / 0x2000) % 2 && gl / 2 == (c as int / 0x10) % 16);
    assert(bl % 2 == (c as int / 0x1000) % 2 && bl / 2 == c as int % 16);
}

/// An encoded colour word never has the dark bit set.
proof fn lemma_encoded_below_dark_bit(c: u32)
    ensures
        0 <= spec_argb8888_to_rgb666neogeo(c) < 0x8000,
{
    lemma_first_index_at_least(argb_red(c), 0);
    lemma_first_index_at_least(argb_green(c), 0);
    lemma_first_index_at_least(argb_blue(c), 0);
}

/// Encoding a colour, decoding the word and encoding again gives the same word:
/// a colour that went through the Neo Geo format once is not changed by a second pass.
pub proof fn lemma_neogeo_encoding_stable(c: u32)
    ensures
        spec_argb8888_to_rgb666neogeo(
            spec_rgb666neogeo_to_argb8888(spec_argb8888_to_rgb666neogeo(c) as u16) as u32,
        ) == spec_argb8888_to_rgb666neogeo(c),
{
    lemma_encoded_below_dark_bit(c);
    let w = spec_argb8888_to_rgb666neogeo(c) as u16;
    assert(ng_dark(w) == 0);
    lemma_neogeo_round_trip(w);
}

/// A brighter 8-bit intensity is never quantised to a lower table entry.
pub proof fn lemma_quantize_monotone(x: u8, y: u8)
    requires
        x <= y,
    ensures
        ng_quantize(x) <= ng_quantize(y),
{
    lemma_ng_table_ordered();
    lemma_first_index_at_least(x, 0);
    lemma_first_index_at_least(y, 0);
}

/// Under the same dark bit, a higher channel level never decodes to a lower intensity.
pub proof fn lemma_level_intensity_monotone(l1: int, l2: int, dark: int)
    requires
        0 <= l1 <= l2 < 32,
        dark == 0 || dark == 1,
    ensures
        ng_table()[ng_index(l1, dark)] <= ng_table()[ng_index(l2, dark)],
{
    lemma_ng_table_ordered();
}

/// Setting the dark bit of a colour word never brightens any channel of its
/// decoded colour.
pub proof fn lemma_dark_bit_darkens(c: u16)
    requires
        c < 0x8000,
    ensures
        ({
            let bright = spec_rgb666neogeo_to_argb8888(c) as u32;
            let dark = spec_rgb666neogeo_to_argb8888((c + 0x8000) as u16) as u32;
            &&& argb_red(dark) <= argb_red(bright)
            &&& argb_green(dark) <= argb_green(bright)
            &&& argb_blue(dark) <= argb_blue(bright)
        }),
{
    lemma_ng_table_ordered();
    let d = (c + 0x8000) as u16;
    assert(d / 0x8000 == 1 && c / 0x8000 == 0 && (d / 0x4000) % 2 == (c / 0x4000) % 2 && (d
        / 0x2000) % 2 == (c / 0x2000) % 2 && (d / 0x1000) % 2 == (c / 0x1000) % 2 && (d / 0x100)
        % 16 == (c / 0x100) % 16 && (d / 0x10) % 16 == (c / 0x10) % 16 && d % 16 == c % 16)
        by (bit_vector)
        requires
            c < 0x8000,
            d == (c + 0x8000) as u16,
    ;
    assert(ng_dark(d) == 1 && ng_dark(c) == 0);
    assert(ng_red_level(d) == ng_red_level(c));
    assert(ng_green_level(d) == ng_green_level(c));
    assert(ng_blue_level(d) == ng_blue_level(c));
    lemma_unpack_argb8888(
        ng_table()[ng_index(ng_red_level(c), 0)] as u32,
        ng_table()[ng_index(ng_green_level(c), 0)] as u32,
        ng_table()[ng_index(ng_blue_level(c), 0)] as u32,
    );
    lemma_unpack_argb8888(
        ng_table()[ng_index(ng_red_level(d), 1)] as u32,
        ng_table()[ng_index(ng_green_level(d), 1)] as u32,
        ng_table()[ng_index(ng_blue_level(d), 1)] as u32,
    );
}

} // verus!
