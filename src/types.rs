//! Frame buffers and the packed 0x00RRGGBB pixel format.
use vstd::prelude::*;

verus! {

/// A dense row-major image; each pixel is packed as 0x00RRGGBB.
#[derive(Clone)]
pub struct FrameBuffer {
    pub width: usize,
    pub height: usize,
    pub pixels: Vec<u32>,
}

impl FrameBuffer {
    /// One pixel per cell of the `width` x `height` grid.
    pub open spec fn wf(&self) -> bool {
        self.pixels@.len() == self.width * self.height
    }

    /// Same geometry as `other`.
    pub open spec fn same_dims(&self, other: &FrameBuffer) -> bool {
        self.width == other.width && self.height == other.height
    }

    /// A frame from row-major 8-bit RGB triples, three bytes per pixel.
    pub fn from_rgb8(width: usize, height: usize, data: &Vec<u8>) -> (r: FrameBuffer)
        requires
            data@.len() == 3 * width * height,
        ensures
            r.width == width,
            r.height == height,
            r.wf(),
            forall|i: int|
                0 <= i < width * height ==> #[trigger] r.pixels@[i] == rgb(
                    data@[3 * i] as int,
                    data@[3 * i + 1] as int,
                    data@[3 * i + 2] as int,
                ),
    {
        proof {
            assert(3 * width * height == 3 * (width * height)) by (nonlinear_arith);
        }
        let len = data.len();
        let n = len / 3;
        let mut pixels: Vec<u32> = Vec::with_capacity(n);
        let mut j: usize = 0;
        while j < n
            invariant
                0 <= j <= n,
                n == width * height,
                data@.len() == 3 * n,
                len == data@.len(),
                pixels@.len() == j,
                forall|i: int|
                    0 <= i < j ==> #[trigger] pixels@[i] == rgb(
                        data@[3 * i] as int,
                        data@[3 * i + 1] as int,
                        data@[3 * i + 2] as int,
                    ),
            decreases n - j,
        {
            let b = 3 * j;
            pixels.push(pack(data[b], data[b + 1], data[b + 2]));
            j = j + 1;
        }
        FrameBuffer { width, height, pixels }
    }
}

/// Index `k` of a `w` x `h` grid splits into row `k / w` and column `k % w`.
pub proof fn lemma_grid_split(w: int, h: int, k: int)
    requires
        0 < w,
        0 <= k < w * h,
    ensures
        0 <= k / w < h,
        0 <= k % w < w,
        k == (k / w) * w + k % w,
{
    vstd::arithmetic::div_mod::lemma_fundamental_div_mod(k, w);
    assert(0 <= k % w < w) by {
        vstd::arithmetic::div_mod::lemma_mod_pos_bound(k, w);
    }
    assert(0 <= k / w) by {
        vstd::arithmetic::div_mod::lemma_div_pos_is_pos(k, w);
    }
    let q = k / w;
    let r = k % w;
    assert(q * w == w * q) by (nonlinear_arith);
    assert(q < h) by (nonlinear_arith)
        requires
            k == q * w + r,
            0 <= r,
            k < w * h,
            0 < w,
    ;
}

/// Row `y`, column `x` of a `w` x `h` grid is cell `y * w + x`.
pub proof fn lemma_grid_index(w: int, h: int, y: int, x: int)
    requires
        0 <= y < h,
        0 <= x < w,
    ensures
        0 <= y * w,
        y * w + x < w * h,
        (y * w + x) / w == y,
        (y * w + x) % w == x,
{
    assert(0 <= y * w && y * w + x < w * h) by (nonlinear_arith)
        requires
            0 <= y < h,
            0 <= x < w,
    ;
    vstd::arithmetic::div_mod::lemma_fundamental_div_mod_converse(y * w + x, w, y, x);
}

/// Channel `c` of a packed pixel: 0 is red, 1 is green, 2 is blue.
pub open spec fn chan(p: u32, c: int) -> u8 {
    if c == 0 {
        ((p >> 16u32) & 0xffu32) as u8
    } else if c == 1 {
        ((p >> 8u32) & 0xffu32) as u8
    } else {
        (p & 0xffu32) as u8
    }
}

/// The packed pixel with the given channel values.
pub open spec fn rgb(r: int, g: int, b: int) -> u32 {
    (r * 65536 + g * 256 + b) as u32
}

/// A pixel whose unused top byte is zero.
pub open spec fn is_rgb24(p: u32) -> bool {
    p < 0x100_0000
}

pub proof fn lemma_pack_bits(r: u32, g: u32, b: u32)
    requires
        r < 256,
        g < 256,
        b < 256,
    ensures
        (r << 16u32) | (g << 8u32) | b == r * 65536 + g * 256 + b,
        ((((r << 16u32) | (g << 8u32) | b) >> 16u32) & 0xffu32) == r,
        ((((r << 16u32) | (g << 8u32) | b) >> 8u32) & 0xffu32) == g,
        (((r << 16u32) | (g << 8u32) | b) & 0xffu32) == b,
        (r << 16u32) | (g << 8u32) | b < 0x100_0000,
{
    assert((r << 16u32) | (g << 8u32) | b == r * 65536 + g * 256 + b) by (bit_vector)
        requires
            r < 256,
            g < 256,
            b < 256,
    ;
    assert(((((r << 16u32) | (g << 8u32) | b) >> 16u32) & 0xffu32) == r) by (bit_vector)
        requires
            r < 256,
            g < 256,
            b < 256,
    ;
    assert(((((r << 16u32) | (g << 8u32) | b) >> 8u32) & 0xffu32) == g) by (bit_vector)
        requires
            r < 256,
            g < 256,
            b < 256,
    ;
    assert((((r << 16u32) | (g << 8u32) | b) & 0xffu32) == b) by (bit_vector)
        requires
            r < 256,
            g < 256,
            b < 256,
    ;
    assert((r << 16u32) | (g << 8u32) | b < 0x100_0000) by (bit_vector)
        requires
            r < 256,
            g < 256,
            b < 256,
    ;
}

/// Packing the three channels of a pixel gives it back when its top byte is zero.
pub proof fn lemma_rgb_of_channels(p: u32)
    requires
        is_rgb24(p),
    ensures
        rgb(chan(p, 0) as int, chan(p, 1) as int, chan(p, 2) as int) == p,
{
    assert(((p >> 16u32) & 0xffu32) < 256 && ((p >> 8u32) & 0xffu32) < 256 && (p & 0xffu32) < 256)
        by (bit_vector);
    assert(p < 0x100_0000 ==> ((p >> 16u32) & 0xffu32) * 65536 + ((p >> 8u32) & 0xffu32) * 256
        + (p & 0xffu32) == p) by (bit_vector);
}

/// The channels of a packed pixel are the values it was packed from.
pub proof fn lemma_channels_of_rgb(r: int, g: int, b: int)
    requires
        0 <= r < 256,
        0 <= g < 256,
        0 <= b < 256,
    ensures
        chan(rgb(r, g, b), 0) == r,
        chan(rgb(r, g, b), 1) == g,
        chan(rgb(r, g, b), 2) == b,
        is_rgb24(rgb(r, g, b)),
{
    lemma_pack_bits(r as u32, g as u32, b as u32);
}

/// Red, green and blue of a packed pixel.
pub fn unpack(p: u32) -> (r: (u8, u8, u8))
    ensures
        r.0 == chan(p, 0),
        r.1 == chan(p, 1),
        r.2 == chan(p, 2),
{
    (((p >> 16) & 0xff) as u8, ((p >> 8) & 0xff) as u8, (p & 0xff) as u8)
}

/// Packs three channel values as 0x00RRGGBB.
pub fn pack(r: u8, g: u8, b: u8) -> (p: u32)
    ensures
        p == rgb(r as int, g as int, b as int),
        chan(p, 0) == r,
        chan(p, 1) == g,
        chan(p, 2) == b,
        is_rgb24(p),
{
    let (r, g, b) = (r as u32, g as u32, b as u32);
    proof {
        lemma_pack_bits(r, g, b);
    }
    (r << 16) | (g << 8) | b
}

} // verus!
