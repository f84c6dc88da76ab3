//! Images of packed premultiplied RGBA8 pixels.
use vstd::prelude::*;

verus! {

/// Channel `k` (0 red, 1 green, 2 blue, 3 alpha) of a packed pixel.
pub open spec fn channel(px: u32, k: int) -> int {
    let v = px as int;
    if k == 0 {
        v % 256
    } else if k == 1 {
        (v / 256) % 256
    } else if k == 2 {
        (v / 65536) % 256
    } else {
        v / 16777216
    }
}

/// The packed pixel with the given channels.
pub open spec fn packed(r: int, g: int, b: int, a: int) -> int {
    r + g * 256 + b * 65536 + a * 16777216
}

/// A pixel whose four channels all equal `a`.
pub open spec fn gray(a: int) -> u32 {
    packed(a, a, a, a) as u32
}

/// Packs red, green, blue and alpha bytes into one pixel, red in the low byte.
pub fn rgba8_pack(c: [u8; 4]) -> (px: u32)
    ensures
        px == packed(c[0] as int, c[1] as int, c[2] as int, c[3] as int),
        channel(px, 0) == c[0],
        channel(px, 1) == c[1],
        channel(px, 2) == c[2],
        channel(px, 3) == c[3],
{
    let r = c[0];
    let g = c[1];
    let b = c[2];
    let a = c[3];
    let px = (r as u32) | ((g as u32) << 8u32) | ((b as u32) << 16u32) | ((a as u32) << 24u32);
    proof {
        assert(px == r as u32 + (g as u32) * 256 + (b as u32) * 65536 + (a as u32) * 16777216
            && px % 256 == r as u32 && (px / 256) % 256 == g as u32 && (px / 65536) % 256
            == b as u32 && px / 16777216 == a as u32) by (bit_vector)
            requires
                px == (r as u32) | ((g as u32) << 8u32) | ((b as u32) << 16u32) | ((a as u32)
                    << 24u32),
        ;
    }
    px
}

/// The red, green, blue and alpha bytes of a pixel.
pub fn unpack_rgba8(px: u32) -> (c: [u8; 4])
    ensures
        c[0] == channel(px, 0),
        c[1] == channel(px, 1),
        c[2] == channel(px, 2),
        c[3] == channel(px, 3),
{
    let r = (px & 0xff) as u8;
    let g = ((px >> 8u32) & 0xff) as u8;
    let b = ((px >> 16u32) & 0xff) as u8;
    let a = ((px >> 24u32) & 0xff) as u8;
    proof {
        assert(px & 0xff == px % 256) by (bit_vector);
        assert((px >> 8u32) & 0xff == (px / 256) % 256) by (bit_vector);
        assert((px >> 16u32) & 0xff == (px / 65536) % 256) by (bit_vector);
        assert((px >> 24u32) & 0xff == px / 16777216) by (bit_vector);
    }
    [r, g, b, a]
}

/// The alpha byte of a pixel.
pub fn alpha_of(px: u32) -> (a: u8)
    ensures
        a == channel(px, 3),
{
    proof {
        assert((px >> 24u32) & 0xff == px / 16777216) by (bit_vector);
    }
    ((px >> 24u32) & 0xff) as u8
}

/// A pixel whose four channels all equal `a`.
pub fn gray_pixel(a: u8) -> (px: u32)
    ensures
        px == gray(a as int),
        channel(px, 3) == a,
{
    rgba8_pack([a, a, a, a])
}

/// A `width` x `height` image, rows top to bottom.
#[derive(Clone, Debug, PartialEq, Eq)]
pub struct Image {
    pub width: u32,
    pub height: u32,
    pub pixels: Vec<u32>,
}

impl Image {
    /// One pixel per position, addressable with 32-bit indices.
    pub open spec fn wf(self) -> bool {
        &&& self.pixels@.len() == self.width * self.height
        &&& self.width * self.height <= u32::MAX
    }

    /// Index of pixel `(x, y)`.
    pub open spec fn ix(self, x: int, y: int) -> int {
        y * self.width + x
    }

    /// A fully transparent image.
    pub fn transparent(width: u32, height: u32) -> (image: Image)
        requires
            width * height <= u32::MAX,
        ensures
            image.wf(),
            image.width == width,
            image.height == height,
            forall|i: int| 0 <= i < image.pixels@.len() ==> #[trigger] image.pixels@[i] == 0u32,
    {
        let n = (width * height) as usize;
        let mut pixels: Vec<u32> = Vec::new();
        let mut i: usize = 0;
        while i < n
            invariant
                i <= n,
                pixels@.len() == i,
                forall|k: int| 0 <= k < i ==> #[trigger] pixels@[k] == 0u32,
            decreases n - i,
        {
            pixels.push(0u32);
            i = i + 1;
        }
        Image { width, height, pixels }
    }

    /// The channels of pixel `(x, y)`.
    pub fn rgba8_at(&self, x: u32, y: u32) -> (c: [u8; 4])
        requires
            self.wf(),
            x < self.width,
            y < self.height,
        ensures
            forall|k: int| 0 <= k < 4 ==> c[k] == channel(self.pixels@[self.ix(x as int, y as int)], k),
    {
        proof {
            lemma_index_in_image(self.width as int, self.height as int, x as int, y as int);
        }
        unpack_rgba8(self.pixels[(y * self.width + x) as usize])
    }
}

/// Pixel `(x, y)` of a `width` x `height` image has an index below `width * height`.
pub proof fn lemma_index_in_image(width: int, height: int, x: int, y: int)
    requires
        0 <= x < width,
        0 <= y < height,
    ensures
        0 <= y * width + x < width * height,
        y * width + x + 1 <= width * height,
{
    assert(y * width + x < width * height) by (nonlinear_arith)
        requires
            0 <= x < width,
            0 <= y < height,
    ;
    assert(y * width >= 0) by (nonlinear_arith)
        requires
            0 <= y,
            0 <= width,
    ;
}

} // verus!
