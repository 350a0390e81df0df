use vstd::prelude::*;

verus! {

/// Why a palette could not be built from the words or bytes given.
#[derive(Debug, PartialEq, Eq, Structural)]
pub enum PaletteError {
    /// The input had `found` elements, the wrong number; `expected` is the length
    /// that the error reports as wanted ("Expected length: {expected}").
    InvalidLength { expected: usize, found: usize },
}

/// A palette: its index word followed by its fifteen colour words.
pub struct Palette {
    pub palette_index: u16,
    pub color_array: Vec<u16>,
}

/// The 16-bit word stored little-endian in the bytes `lo`, `hi`.
pub open spec fn le_word(lo: u8, hi: u8) -> u16 {
    (lo as int + hi as int * 0x100) as u16
}

/// The little-endian 16-bit words of a byte sequence, two bytes per word (a
/// trailing odd byte is ignored).
pub open spec fn le_words(bytes: Seq<u8>) -> Seq<u16> {
    Seq::new(bytes.len() / 2, |k: int| le_word(bytes[2 * k], bytes[2 * k + 1]))
}

/// The palette (index and colours) that sixteen words make: the first word is the
/// index, the other fifteen the colours.
pub open spec fn palette_from_words(words: Seq<u16>) -> Result<(u16, Seq<u16>), PaletteError> {
    if words.len() != 16 {
        Err(PaletteError::InvalidLength { expected: 16, found: words.len() as usize })
    } else {
        Ok((words[0], words.subrange(1, 16)))
    }
}

/// The palette that an index and fifteen colour words make. Any other number of
/// colours is refused with the same report as for `palette_from_words`:
/// expected length 16.
pub open spec fn palette_from_index_and_colors(idx: u16, colors: Seq<u16>) -> Result<
    (u16, Seq<u16>),
    PaletteError,
> {
    if colors.len() != 15 {
        Err(PaletteError::InvalidLength { expected: 16, found: colors.len() as usize })
    } else {
        Ok((idx, colors))
    }
}

/// The words that a block of bytes decodes to: sixteen little-endian words from
/// exactly 32 bytes.
pub open spec fn words_from_palette_bytes(bytes: Seq<u8>) -> Result<Seq<u16>, PaletteError> {
    if bytes.len() != 32 {
        Err(PaletteError::InvalidLength { expected: 32, found: bytes.len() as usize })
    } else {
        Ok(le_words(bytes))
    }
}

impl Palette {
    /// Builds a palette from sixteen words: the first is the index, the rest the colours.
    pub fn new_from_vec(arr: Vec<u16>) -> (r: Result<Palette, PaletteError>)
        ensures
            match r {
                Ok(p) => palette_from_words(arr@) == Ok::<(u16, Seq<u16>), PaletteError>(
                    (p.palette_index, p.color_array@),
                ),
                Err(e) => palette_from_words(arr@) == Err::<(u16, Seq<u16>), PaletteError>(e),
            },
            r is Ok <==> arr@.len() == 16,
            r matches Ok(p) ==> p.palette_index == arr@[0] && p.color_array@.len() == 15 && forall|
                k: int,
            | 0 <= k < 15 ==> #[trigger] p.color_array@[k] == arr@[k + 1],
    {
        if arr.len() != 16 {
            return Err(PaletteError::InvalidLength { expected: 16, found: arr.len() });
        }
        let mut color_array = arr;
        let palette_index = color_array.remove(0);
        assert(color_array@ =~= arr@.subrange(1, 16));
        Ok(Palette { palette_index, color_array })
    }

    /// Builds a palette from its index and fifteen colours; any other number of
    /// colours is refused, reported as "expected length 16".
    pub fn new_from_vec_idx(idx: u16, arr: Vec<u16>) -> (r: Result<Palette, PaletteError>)
        ensures
            match r {
                Ok(p) => palette_from_index_and_colors(idx, arr@) == Ok::<
                    (u16, Seq<u16>),
                    PaletteError,
                >((p.palette_index, p.color_array@)),
                Err(e) => palette_from_index_and_colors(idx, arr@) == Err::<
                    (u16, Seq<u16>),
                    PaletteError,
                >(e),
            },
            r is Ok <==> arr@.len() == 15,
            r matches Ok(p) ==> p.palette_index == idx && p.color_array@ == arr@,
    {
        if arr.len() != 15 {
            return Err(PaletteError::InvalidLength { expected: 16, found: arr.len() });
        }
        Ok(Palette { palette_index: idx, color_array: arr })
    }

    /// Decodes 32 bytes into sixteen little-endian 16-bit words.
    pub fn u8x32_to_u16x16_le(buf: Vec<u8>) -> (r: Result<Vec<u16>, PaletteError>)
        ensures
            match r {
                Ok(v) => words_from_palette_bytes(buf@) == Ok::<Seq<u16>, PaletteError>(v@),
                Err(e) => words_from_palette_bytes(buf@) == Err::<Seq<u16>, PaletteError>(e),
            },
            r is Ok <==> buf@.len() == 32,
            r matches Ok(v) ==> v@.len() == 16 && forall|k: int|
                0 <= k < 16 ==> #[trigger] v@[k] == buf@[2 * k] + buf@[2 * k + 1] * 0x100,
    {
        if buf.len() != 32 {
            return Err(PaletteError::InvalidLength { expected: 32, found: buf.len() });
        }
        let mut result: Vec<u16> = Vec::new();
        let mut k: usize = 0;
        while k < 16
            invariant
                k <= 16,
                buf@.len() == 32,
                result@ =~= le_words(buf@).take(k as int),
            decreases 16 - k,
        {
            let lo = buf[2 * k];
            let hi = buf[2 * k + 1];
            result.push(lo as u16 + (hi as u16) * 0x100);
            k = k + 1;
        }
        assert(result@ =~= le_words(buf@));
        Ok(result)
    }
}

/// Splits a buffer into consecutive 32-byte blocks (a shorter tail is ignored)
/// and decodes each into a palette.
pub fn palettes_from_bytes(buf: &[u8]) -> (r: Vec<Palette>)
    ensures
        r@.len() == buf@.len() / 32,
        forall|k: int|
            0 <= k < r@.len() ==> {
                let words = le_words(#[trigger] buf@.subrange(32 * k, 32 * k + 32));
                &&& r@[k].palette_index == words[0]
                &&& r@[k].color_array@ == words.subrange(1, 16)
            },
        forall|k: int|
            0 <= k < r@.len() ==> {
                &&& (#[trigger] r@[k]).palette_index == buf@[32 * k] + buf@[32 * k + 1] * 0x100
                &&& r@[k].color_array@.len() == 15
                &&& forall|c: int|
                    0 <= c < 15 ==> #[trigger] r@[k].color_array@[c] == buf@[32 * k + 2 + 2 * c]
                        + buf@[32 * k + 3 + 2 * c] * 0x100
            },
{
    let len = buf.len();
    let n = len / 32;
    let mut palettes: Vec<Palette> = Vec::new();
    let mut i: usize = 0;
    while i < n
        invariant
            i <= n,
            n == buf@.len() / 32,
            len == buf@.len(),
            palettes@.len() == i,
            forall|k: int|
                0 <= k < i ==> {
                    let words = le_words(#[trigger] buf@.subrange(32 * k, 32 * k + 32));
                    &&& palettes@[k].palette_index == words[0]
                    &&& palettes@[k].color_array@ == words.subrange(1, 16)
                },
        decreases n - i,
    {
        assert(32 * i + 32 <= buf@.len()) by (nonlinear_arith)
            requires
                i < n,
                n == buf@.len() / 32,
        ;
        let mut chunk: Vec<u8> = Vec::new();
        let mut j: usize = 0;
        while j < 32
            invariant
                j <= 32,
                i < n,
                n == buf@.len() / 32,
                32 * i + 32 <= buf@.len(),
                len == buf@.len(),
                chunk@ =~= buf@.subrange(32 * i, 32 * i + j),
            decreases 32 - j,
        {
            chunk.push(buf[32 * i + j]);
            j = j + 1;
        }
        let ghost bytes = chunk@;
        match Palette::u8x32_to_u16x16_le(chunk) {
            Ok(words) => {
                let ghost ws = words@;
                match Palette::new_from_vec(words) {
                    Ok(p) => {
                        assert(p.palette_index == ws[0]);
                        palettes.push(p);
                    },
                    Err(_) => {
                        assert(false);
                    },
                }
            },
            Err(_) => {
                assert(false);
            },
        }
        i = i + 1;
    }
    assert forall|k: int| 0 <= k < palettes@.len() implies {
        &&& (#[trigger] palettes@[k]).palette_index == buf@[32 * k] + buf@[32 * k + 1] * 0x100
        &&& palettes@[k].color_array@.len() == 15
        &&& forall|c: int|
            0 <= c < 15 ==> #[trigger] palettes@[k].color_array@[c] == buf@[32 * k + 2 + 2 * c]
                + buf@[32 * k + 3 + 2 * c] * 0x100
    } by {
        let block = buf@.subrange(32 * k, 32 * k + 32);
        assert(32 * k + 32 <= buf@.len()) by (nonlinear_arith)
            requires
                0 <= k < palettes@.len(),
                palettes@.len() == buf@.len() / 32,
        ;
        let words = le_words(block);
        assert(words[0] == le_word(block[0], block[1]));
        assert forall|c: int| 0 <= c < 15 implies #[trigger] palettes@[k].color_array@[c]
            == buf@[32 * k + 2 + 2 * c] + buf@[32 * k + 3 + 2 * c] * 0x100 by {
            assert(palettes@[k].color_array@[c] == words[c + 1]);
            assert(block[2 * (c + 1)] == buf@[32 * k + 2 + 2 * c]);
            assert(block[2 * (c + 1) + 1] == buf@[32 * k + 3 + 2 * c]);
        }
    }
    palettes
}

/// Building a palette from sixteen words gives the same palette as building it
/// from the first word as index and the other fifteen as colours.
pub proof fn lemma_palette_from_words_splits(words: Seq<u16>)
    requires
        words.len() == 16,
    ensures
        palette_from_words(words) == palette_from_index_and_colors(words[0], words.subrange(1, 16)),
{
}

/// Any 32 bytes decode to words from which a palette can always be built, whose
/// index is the first little-endian word.
pub proof fn lemma_palette_bytes_always_decode(bytes: Seq<u8>)
    requires
        bytes.len() == 32,
    ensures
        words_from_palette_bytes(bytes) is Ok,
        palette_from_words(words_from_palette_bytes(bytes).unwrap()) is Ok,
        palette_from_words(words_from_palette_bytes(bytes).unwrap()).unwrap().0 == le_word(
            bytes[0],
            bytes[1],
        ),
{
}

} // verus!
