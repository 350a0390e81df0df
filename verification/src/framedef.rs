use vstd::prelude::*;

verus! {

/// The contents of a frame definition.
pub struct FrameDefinitionView {
    pub palette: u8,
    pub width: u8,
    pub height: u8,
    pub bitmap: Seq<u16>,
    pub tile_offset: Seq<u32>,
}

/// A sprite frame: its palette, its size in tiles, one 16-bit column mask per
/// column (bit 15 is the top row) and the offsets of the tiles it draws.
#[derive(Clone)]
pub struct FrameDefinition {
    palette: u8,
    width: u8,
    height: u8,
    bitmap: Vec<u16>,
    tile_offset: Vec<u32>,
}

impl View for FrameDefinition {
    type V = FrameDefinitionView;

    closed spec fn view(&self) -> FrameDefinitionView {
        FrameDefinitionView {
            palette: self.palette,
            width: self.width,
            height: self.height,
            bitmap: self.bitmap@,
            tile_offset: self.tile_offset@,
        }
    }
}

/// Whether bit `bit` of a column mask is set.
pub open spec fn mask_bit(mask: u16, bit: u16) -> bool {
    (mask >> bit) & 1u16 == 1u16
}

impl FrameDefinition {
    /// A frame definition with the given fields.
    pub fn new(palette: u8, width: u8, height: u8, bitmap: Vec<u16>, tile_offset: Vec<u32>) -> (r:
        FrameDefinition)
        ensures
            r@ == (FrameDefinitionView {
                palette,
                width,
                height,
                bitmap: bitmap@,
                tile_offset: tile_offset@,
            }),
    {
        FrameDefinition { palette, width, height, bitmap, tile_offset }
    }

    /// The palette the frame is drawn with.
    pub fn palette(&self) -> (r: u8)
        ensures
            r == self@.palette,
    {
        self.palette
    }

    /// The width of the frame in tiles (its number of columns).
    pub fn width(&self) -> (r: u8)
        ensures
            r == self@.width,
    {
        self.width
    }

    /// The height of the frame in tiles.
    pub fn height(&self) -> (r: u8)
        ensures
            r == self@.height,
    {
        self.height
    }

    /// The column masks: bit `15 - row` of mask `column` is set when that cell is drawn.
    pub fn bitmap(&self) -> (r: &Vec<u16>)
        ensures
            r@ == self@.bitmap,
    {
        &self.bitmap
    }

    /// The tile numbers of the drawn cells, column by column.
    pub fn tile_offset(&self) -> (r: &Vec<u32>)
        ensures
            r@ == self@.tile_offset,
    {
        &self.tile_offset
    }

    /// The drawn cells, row by row: cell `(i, j)` is set when column mask `j` has
    /// bit `15 - i` set. A mask has sixteen rows, so the height is at most 16, and
    /// every column needs a mask unless the frame has no rows (masks past the
    /// width are not read).
    pub fn bitmap_grid(&self) -> (r: Vec<Vec<bool>>)
        requires
            self@.height <= 16,
            self@.height == 0 || self@.width <= self@.bitmap.len(),
        ensures
            r@.len() == self@.height,
            forall|i: int|
                0 <= i < self@.height ==> {
                    &&& (#[trigger] r@[i])@.len() == self@.width
                    &&& forall|j: int|
                        0 <= j < self@.width ==> r@[i]@[j] == mask_bit(
                            self@.bitmap[j],
                            (15 - i) as u16,
                        )
                },
    {
        let nrows: u8 = self.height;
        let ncols: usize = self.width as usize;
        let mut rows: Vec<Vec<bool>> = Vec::new();
        let mut i: u8 = 0;
        while i < nrows
            invariant
                i <= nrows <= 16,
                nrows == self.height,
                ncols == self.width,
                nrows == 0 || ncols <= self.bitmap@.len(),
                rows@.len() == i,
                forall|k: int|
                    0 <= k < i ==> {
                        &&& (#[trigger] rows@[k])@.len() == ncols
                        &&& forall|j: int|
                            0 <= j < ncols ==> rows@[k]@[j] == mask_bit(
                                self.bitmap@[j],
                                (15 - k) as u16,
                            )
                    },
            decreases nrows - i,
        {
            let shift: u8 = 15 - i;
            let bit_mask: u16 = 1u16 << shift;
            let mut row: Vec<bool> = Vec::new();
            let mut j: usize = 0;
            while j < ncols
                invariant
                    j <= ncols <= self.bitmap@.len(),
                    i < nrows <= 16,
                    ncols == self.width,
                    shift == 15 - i,
                    bit_mask == 1u16 << shift,
                    row@.len() == j,
                    forall|jj: int|
                        0 <= jj < j ==> row@[jj] == mask_bit(self.bitmap@[jj], shift as u16),
                decreases ncols - j,
            {
                let mask = self.bitmap[j];
                let set = mask & bit_mask == bit_mask;
                assert(set == mask_bit(mask, shift as u16)) by (bit_vector)
                    requires
                        shift < 16,
                        bit_mask == 1u16 << shift,
                        set == (mask & bit_mask == bit_mask),
                ;
                row.push(set);
                j = j + 1;
            }
            rows.push(row);
            i = i + 1;
        }
        rows
    }
}

} // verus!
