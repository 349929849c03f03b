use vstd::prelude::*;

verus! {

/// The column and row (counted from the bottom of the picture) of the pixel
/// at position `index` of a row-major raster of the given width and height.
pub open spec fn pixel_position_spec(index: int, width: int, height: int) -> (int, int) {
    (index % width, height - 1 - index / width)
}

/// Splits a row-major pixel index into the column and the row counted from
/// the bottom edge, which is how the camera's viewport is parameterised.
pub fn pixel_position(index: u32, width: u32, height: u32) -> (r: (u32, u32))
    requires
        width > 0,
        height > 0,
        index < width * height,
    ensures
        (r.0 as int, r.1 as int) == pixel_position_spec(index as int, width as int, height as int),
        r.0 < width,
        r.1 < height,
{
    let col = index % width;
    let row = index / width;
    assert(row < height) by (nonlinear_arith)
        requires
            row == index / width,
            index < width * height,
            width > 0,
    ;
    (col, height - 1 - row)
}

/// The clamped coordinate: `c`, or the last valid one where `c` runs past
/// `size`.
pub open spec fn clamp_index(c: int, size: int) -> int {
    if c >= size {
        size - 1
    } else {
        c
    }
}

/// An 8-bit RGB picture: `width * height` pixels, row by row from the top,
/// three bytes each.
pub struct TexelImage {
    pub width: u32,
    pub height: u32,
    pub data: Vec<u8>,
}

impl TexelImage {
    pub open spec fn wf(&self) -> bool {
        &&& self.width > 0
        &&& self.height > 0
        &&& self.data@.len() == self.width as int * self.height as int * 3
    }

    /// The byte at channel `ch` of pixel `(x, y)`.
    pub open spec fn byte_at(&self, x: int, y: int, ch: int) -> u8 {
        self.data@[(y * self.width as int + x) * 3 + ch]
    }

    /// Wraps `data` as a `width` by `height` picture; refused unless both
    /// sides are positive and `data` holds exactly three bytes per pixel.
    pub fn new(width: u32, height: u32, data: Vec<u8>) -> (r: Option<Self>)
        ensures
            r is Some <==> (width > 0 && height > 0 && data@.len() == width as int * height as int
                * 3),
            r matches Some(img) ==> img.wf() && img.width == width && img.height == height
                && img.data@ == data@,
    {
        if width == 0 || height == 0 {
            return None;
        }
        let w = width as u128;
        let h = height as u128;
        assert(w * h <= 0xffff_ffff * 0xffff_ffffu128) by (nonlinear_arith)
            requires
                w <= 0xffff_ffff,
                h <= 0xffff_ffff,
        ;
        let bytes = w * h * 3;
        if data.len() as u128 != bytes {
            return None;
        }
        Some(TexelImage { width, height, data })
    }

    /// The colour bytes of the pixel at column `x` and row `y`, each clamped
    /// to the last column or row where it runs past the edge.
    pub fn texel(&self, x: u32, y: u32) -> (r: [u8; 3])
        requires
            self.wf(),
        ensures
            ({
                let cx = clamp_index(x as int, self.width as int);
                let cy = clamp_index(y as int, self.height as int);
                &&& r[0] == self.byte_at(cx, cy, 0)
                &&& r[1] == self.byte_at(cx, cy, 1)
                &&& r[2] == self.byte_at(cx, cy, 2)
            }),
    {
        let cx: u32 = if x >= self.width {
            self.width - 1
        } else {
            x
        };
        let cy: u32 = if y >= self.height {
            self.height - 1
        } else {
            y
        };
        let w = self.width as usize;
        let h = self.height as usize;
        let row = cy as usize;
        let col = cx as usize;
        let n = self.data.len();
        assert((row * w + col) * 3 + 2 < n) by (nonlinear_arith)
            requires
                row < h,
                col < w,
                n == w * h * 3,
        ;
        let base = (row * w + col) * 3;
        [self.data[base], self.data[base + 1], self.data[base + 2]]
    }
}

/// Lays out pixels as bytes, three per pixel in order.
pub fn rgb_bytes(pixels: &Vec<[u8; 3]>) -> (r: Vec<u8>)
    requires
        pixels@.len() * 3 <= usize::MAX,
    ensures
        r@.len() == pixels@.len() * 3,
        forall|k: int| 0 <= k < r@.len() ==> #[trigger] r@[k] == pixels@[k / 3][k % 3],
{
    let mut out: Vec<u8> = Vec::new();
    let mut i: usize = 0;
    while i < pixels.len()
        invariant
            i <= pixels@.len(),
            pixels@.len() * 3 <= usize::MAX,
            out@.len() == i * 3,
            forall|k: int| 0 <= k < out@.len() ==> #[trigger] out@[k] == pixels@[k / 3][k % 3],
        decreases pixels@.len() - i,
    {
        let p = pixels[i];
        let ghost before = out@;
        out.push(p[0]);
        out.push(p[1]);
        out.push(p[2]);
        proof {
            assert forall|k: int| 0 <= k < out@.len() implies #[trigger] out@[k] == pixels@[k / 3][k
                % 3] by {
                if k >= i * 3 {
                    assert(k / 3 == i as int);
                    assert(k % 3 == k - i * 3);
                } else {
                    assert(out@[k] == before[k]);
                }
            }
        }
        i = i + 1;
    }
    out
}

} // verus!
