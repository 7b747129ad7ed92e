use vstd::prelude::*;

verus! {

/// A raster image held in memory, sampled by pixel position: `depth` bytes per pixel,
/// rows of `bytes_per_scanline` bytes, the first row at the top.
pub struct ImageTexture {
    pub data: Vec<u8>,
    pub width: usize,
    pub height: usize,
    pub depth: usize,
    pub bytes_per_scanline: usize,
}

/// The decoded image is large enough for its stated size.
pub open spec fn fits(len: nat, width: nat, height: nat, depth: nat) -> bool {
    &&& width * depth <= usize::MAX
    &&& width * depth * height <= len
}

/// Where the pixel nearest to (`i`, `j`) starts: positions past the last column or row
/// stand for the last one.
pub open spec fn texel_offset(t: ImageTexture, i: nat, j: nat) -> int {
    let ci = if i < t.width { i as int } else { t.width - 1 };
    let cj = if j < t.height { j as int } else { t.height - 1 };
    cj * t.bytes_per_scanline + ci * t.depth
}

impl ImageTexture {
    /// A texture without data.
    pub fn new() -> (r: Self)
        ensures
            r.data@.len() == 0,
            r.width == 0,
            r.height == 0,
            r.depth == 0,
            r.bytes_per_scanline == 0,
    {
        ImageTexture { data: Vec::new(), width: 0, height: 0, depth: 0, bytes_per_scanline: 0 }
    }

    /// The marker texture that stands for an image that could not be loaded: a single
    /// red pixel.
    pub fn new_fallback() -> (r: Self)
        ensures
            r.data@ == seq![255u8, 0u8, 0u8],
            r.width == 1,
            r.height == 1,
            r.depth == 3,
            r.bytes_per_scanline == 3,
    {
        ImageTexture { data: vec![255u8, 0u8, 0u8], width: 1, height: 1, depth: 3, bytes_per_scanline: 3 }
    }

    /// The texture of a decoded image, or the marker texture where nothing was decoded
    /// or the data is shorter than the stated size.
    pub fn from_decoded(decoded: Option<(Vec<u8>, usize, usize, usize)>) -> (r: Self)
        ensures
            match decoded {
                Some((data, width, height, depth)) if fits(
                    data@.len(),
                    width as nat,
                    height as nat,
                    depth as nat,
                ) => {
                    &&& r.data@ == data@
                    &&& r.width == width
                    &&& r.height == height
                    &&& r.depth == depth
                    &&& r.bytes_per_scanline == width * depth
                },
                _ => r.data@ == seq![255u8, 0u8, 0u8] && r.width == 1 && r.height == 1 && r.depth
                    == 3 && r.bytes_per_scanline == 3,
            },
    {
        match decoded {
            Some((data, width, height, depth)) => {
                let len = data.len();
                match width.checked_mul(depth) {
                    Some(scanline) => {
                        match scanline.checked_mul(height) {
                            Some(size) => {
                                if size <= len {
                                    return ImageTexture {
                                        data,
                                        width,
                                        height,
                                        depth,
                                        bytes_per_scanline: scanline,
                                    };
                                }
                            },
                            None => {},
                        }
                    },
                    None => {},
                }
                ImageTexture::new_fallback()
            },
            None => ImageTexture::new_fallback(),
        }
    }

    /// The first three bytes of the pixel nearest to column `i`, row `j` (row 0 at the
    /// top), or `None` where the texture has no such pixel.
    pub fn texel(&self, i: usize, j: usize) -> (r: Option<(u8, u8, u8)>)
        ensures
            ({
                let o = texel_offset(*self, i as nat, j as nat);
                if self.width > 0 && self.height > 0 && o + 3 <= self.data@.len() {
                    r == Some((self.data@[o], self.data@[o + 1], self.data@[o + 2]))
                } else {
                    r is None
                }
            }),
    {
        let len = self.data.len();
        if self.width == 0 || self.height == 0 {
            return None;
        }
        let ci = if i < self.width { i } else { self.width - 1 };
        let cj = if j < self.height { j } else { self.height - 1 };
        proof {
            let (a, b, c, d) = (ci as int, self.depth as int, cj as int, self.bytes_per_scanline as int);
            assert(a * b >= 0) by (nonlinear_arith)
                requires a >= 0, b >= 0;
            assert(c * d >= 0) by (nonlinear_arith)
                requires c >= 0, d >= 0;
        }
        let row = match cj.checked_mul(self.bytes_per_scanline) {
            Some(v) => v,
            None => return None,
        };
        let col = match ci.checked_mul(self.depth) {
            Some(v) => v,
            None => return None,
        };
        let o = match row.checked_add(col) {
            Some(v) => v,
            None => return None,
        };
        if o < len && len - o >= 3 {
            Some((self.data[o], self.data[o + 1], self.data[o + 2]))
        } else {
            None
        }
    }
}

} // verus!
