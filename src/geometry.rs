use vstd::prelude::*;

verus! {

/// A pixel position: column `x`, row `y` (rows grow downwards).
#[derive(Clone, Copy, Debug, PartialEq, Eq, Structural)]
pub struct Pixel {
    pub x: u32,
    pub y: u32,
}

impl Pixel {
    pub fn new(x: u32, y: u32) -> (r: Pixel)
        ensures
            r.x == x,
            r.y == y,
    {
        Pixel { x, y }
    }
}

/// Integer extents of a render: image size and the iteration cap.
#[derive(Clone, Copy, Debug, PartialEq, Eq, Structural)]
pub struct ImageDescriptor {
    pub width: u32,
    pub height: u32,
    pub max_iterations: u32,
}

impl ImageDescriptor {
    /// Number of pixels of the image.
    pub open spec fn pixels(&self) -> int {
        self.width as int * self.height as int
    }

    /// A non-empty image whose RGBA buffer can be indexed by `usize`, and
    /// whose escape counts fit the signed results buffer.
    pub open spec fn wf(&self) -> bool {
        &&& self.width > 0
        &&& self.height > 0
        &&& self.pixels() * 4 <= usize::MAX
        &&& self.max_iterations <= i32::MAX
    }

    pub fn new(width: u32, height: u32, max_iterations: u32) -> (r: ImageDescriptor)
        ensures
            r.width == width,
            r.height == height,
            r.max_iterations == max_iterations,
    {
        ImageDescriptor { width, height, max_iterations }
    }
}

/// The pixel that row-major index `index` names in an image `width` wide.
pub open spec fn pixel_of(index: int, width: int) -> (int, int) {
    (index % width, index / width)
}

/// Row-major index of a pixel.
pub open spec fn index_of(x: int, y: int, width: int) -> int {
    width * y + x
}

proof fn lemma_index_pixel_inverse(index: int, width: int)
    requires
        0 <= index,
        0 < width,
    ensures
        0 <= index % width < width,
        index_of(index % width, index / width, width) == index,
{
    vstd::arithmetic::div_mod::lemma_fundamental_div_mod(index, width);
}

/// Splits a row-major pixel index into column and row.
pub fn index_to_pixel(index: usize, image: &ImageDescriptor) -> (r: Pixel)
    requires
        image.wf(),
        index < image.pixels(),
    ensures
        (r.x as int, r.y as int) == pixel_of(index as int, image.width as int),
        r.x < image.width,
        r.y < image.height,
        index_of(r.x as int, r.y as int, image.width as int) == index,
{
    let w = image.width as usize;
    proof {
        let (i, wi, hi) = (index as int, w as int, image.height as int);
        lemma_index_pixel_inverse(i, wi);
        let (q, m) = (i / wi, i % wi);
        assert(0 <= q < hi) by (nonlinear_arith)
            requires wi * q + m == i, 0 <= m < wi, 0 <= i < wi * hi;
    }
    Pixel { x: (index % w) as u32, y: (index / w) as u32 }
}

/// Byte offset of a pixel's red channel in a row-major RGBA buffer.
pub fn pixel_offset(pixel: &Pixel, image: &ImageDescriptor) -> (r: usize)
    requires
        image.wf(),
        pixel.x < image.width,
        pixel.y < image.height,
    ensures
        r == 4 * index_of(pixel.x as int, pixel.y as int, image.width as int),
        r + 4 <= 4 * image.pixels(),
{
    let w = image.width as usize;
    let x = pixel.x as usize;
    let y = pixel.y as usize;
    proof {
        let (wi, hi, xi, yi) = (w as int, image.height as int, x as int, y as int);
        assert(wi * yi + xi < wi * hi) by (nonlinear_arith)
            requires 0 <= xi < wi, 0 <= yi < hi;
    }
    (w * y + x) * 4
}

} // verus!
