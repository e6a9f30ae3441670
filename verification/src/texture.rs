//! The discrete side of two textures: which cell of a checker pattern shows
//! which of its two textures, and where a texel lies in a raster.

use vstd::prelude::*;

verus! {

/// A cell of the checker pattern shows the even texture where the sum of its
/// three coordinates is even, and the odd one elsewhere.
pub open spec fn cell_is_even(x: int, y: int, z: int) -> bool {
    (x + y + z) % 2 == 0
}

/// The last bit of a number tells whether it is even.
proof fn lemma_last_bit(sum: i64)
    ensures
        (sum & 1 == 0) == (sum as int % 2 == 0),
{
    assert((sum & 1 == 0) == (sum % 2 == 0)) by (bit_vector);
}

/// Says which texture the cell `(x, y, z)` of a checker pattern shows: `true`
/// for the even one. The sum is taken exactly, whatever the coordinates.
pub fn is_even_cell(x: i32, y: i32, z: i32) -> (even: bool)
    ensures
        even == cell_is_even(x as int, y as int, z as int),
{
    let sum: i64 = x as i64 + y as i64 + z as i64;
    proof {
        lemma_last_bit(sum);
    }
    sum & 1 == 0
}

/// Neighbouring cells differ: one step along any one axis, either way, leads
/// from a cell that shows one texture to a cell that shows the other.
pub proof fn lemma_checker_alternates(x: int, y: int, z: int)
    ensures
        cell_is_even(x + 1, y, z) != cell_is_even(x, y, z),
        cell_is_even(x - 1, y, z) != cell_is_even(x, y, z),
        cell_is_even(x, y + 1, z) != cell_is_even(x, y, z),
        cell_is_even(x, y - 1, z) != cell_is_even(x, y, z),
        cell_is_even(x, y, z + 1) != cell_is_even(x, y, z),
        cell_is_even(x, y, z - 1) != cell_is_even(x, y, z),
{
}

/// Two steps along one axis lead back to the same texture.
pub proof fn lemma_checker_repeats(x: int, y: int, z: int)
    ensures
        cell_is_even(x + 2, y, z) == cell_is_even(x, y, z),
        cell_is_even(x, y + 2, z) == cell_is_even(x, y, z),
        cell_is_even(x, y, z + 2) == cell_is_even(x, y, z),
{
}

/// A raster of texels, row after row from the top, each texel
/// `bytes_per_pixel` bytes of which the first three are red, green and blue.
#[derive(Debug)]
pub struct ImageTex {
    pub data: Vec<u8>,
    pub width: u32,
    pub height: u32,
    pub bytes_per_pixel: u8,
}

impl ImageTex {
    /// Where the texel in column `x` of row `y` begins in `data`.
    pub open spec fn offset(self, x: int, y: int) -> int {
        x * self.bytes_per_pixel + y * self.width * self.bytes_per_pixel
    }

    /// The three bytes of the texel in column `x` of row `y` lie within `data`.
    pub open spec fn covers(self, x: int, y: int) -> bool {
        self.offset(x, y) + 3 <= self.data@.len()
    }

    /// The raster is tightly packed with three bytes to the texel.
    pub open spec fn wf(self) -> bool {
        &&& self.bytes_per_pixel == 3
        &&& self.data@.len() == self.width * self.height * 3
    }

    /// Takes over a decoded raster of `width` by `height` texels of three
    /// bytes each.
    pub fn new(data: Vec<u8>, width: u32, height: u32) -> (image: ImageTex)
        requires
            data@.len() == width * height * 3,
        ensures
            image.wf(),
            image.data@ == data@,
            image.width == width,
            image.height == height,
    {
        ImageTex { data, width, height, bytes_per_pixel: 3 }
    }

    /// Tells whether the texel in column `x` of row `y` can be read.
    pub fn has_pixel(&self, x: usize, y: usize) -> (inside: bool)
        ensures
            inside == self.covers(x as int, y as int),
    {
        let step: u128 = self.bytes_per_pixel as u128;
        let across: u128 = x as u128;
        let down: u128 = y as u128;
        let wide: u128 = self.width as u128;
        assert(across * step <= 0xffff_ffff_ffff_ffff * 0xff) by (nonlinear_arith)
            requires
                0 <= across <= 0xffff_ffff_ffff_ffff,
                0 <= step <= 0xff,
        ;
        assert(down * wide <= 0xffff_ffff_ffff_ffff * 0xffff_ffff) by (nonlinear_arith)
            requires
                0 <= down <= 0xffff_ffff_ffff_ffff,
                0 <= wide <= 0xffff_ffff,
        ;
        let rows: u128 = down * wide;
        assert(rows * step <= 0xffff_ffff_ffff_ffff * 0xffff_ffff * 0xff) by (nonlinear_arith)
            requires
                0 <= rows <= 0xffff_ffff_ffff_ffff * 0xffff_ffff,
                0 <= step <= 0xff,
        ;
        let begin: u128 = across * step + rows * step;
        assert(begin == self.offset(x as int, y as int)) by (nonlinear_arith)
            requires
                begin == across * step + (down * wide) * step,
                across == x,
                down == y,
                step == self.bytes_per_pixel,
                wide == self.width,
                self.offset(x as int, y as int) == x * self.bytes_per_pixel + y * self.width
                    * self.bytes_per_pixel,
        ;
        begin + 3 <= self.data.len() as u128
    }

    /// Reads the red, green and blue bytes of the texel in column `x` of row `y`.
    pub fn get_pixel(&self, x: usize, y: usize) -> (rgb: [u8; 3])
        requires
            self.bytes_per_pixel >= 1,
            self.covers(x as int, y as int),
        ensures
            rgb@ == self.data@.subrange(
                self.offset(x as int, y as int),
                self.offset(x as int, y as int) + 3,
            ),
    {
        let step: usize = self.bytes_per_pixel as usize;
        let wide: usize = self.width as usize;
        let len: usize = self.data.len();
        assert(x * step <= len && y * wide <= len && (y * wide) * step <= len && x * step + (y
            * wide) * step == self.offset(x as int, y as int)) by (nonlinear_arith)
            requires
                step >= 1,
                x >= 0,
                y >= 0,
                wide >= 0,
                x * step + y * wide * step + 3 <= len,
                self.offset(x as int, y as int) == x * step + y * wide * step,
        ;
        let index: usize = x * step + y * wide * step;
        let rgb = [self.data[index], self.data[index + 1], self.data[index + 2]];
        assert(rgb@ =~= self.data@.subrange(index as int, index + 3));
        rgb
    }
}

} // verus!
