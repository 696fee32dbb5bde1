//! Integer core of the glow effects: a xorshift generator, saturating additive
//! pixels, and precomputed radially symmetric disc kernels.
use vstd::prelude::*;
use crate::types::{chan, rgb, pack, unpack, lemma_grid_index, lemma_grid_split, FrameBuffer};

verus! {

/// One xorshift32 step (shifts 13, 17, 5).
pub open spec fn xorshift32(x: u32) -> u32 {
    let a = x ^ (x << 13u32);
    let b = a ^ (a >> 17u32);
    b ^ (b << 5u32)
}

/// A small deterministic pseudo-random generator.
#[derive(Clone)]
pub struct Rng32 {
    state: u32,
}

impl Rng32 {
    /// The generator's current state.
    pub closed spec fn state(&self) -> u32 {
        self.state
    }

    /// A generator seeded with `seed`; the low bit is forced on so the state is never zero.
    pub fn from_seed(seed: u32) -> (r: Self)
        ensures
            r.state() == seed | 1,
    {
        Rng32 { state: seed | 1 }
    }

    /// Advances the state by one xorshift step and returns the new state.
    pub fn next_u32(&mut self) -> (r: u32)
        ensures
            r == xorshift32(old(self).state()),
            final(self).state() == r,
    {
        let mut x = self.state;
        x = x ^ (x << 13);
        x = x ^ (x >> 17);
        x = x ^ (x << 5);
        self.state = x;
        x
    }
}

/// `a + b`, held at 255.
pub open spec fn sat_add(a: int, b: int) -> int {
    if a + b > 255 {
        255
    } else {
        a + b
    }
}

/// Pixel `p` brightened by `(r, g, b)`, each channel saturating at 255.
pub open spec fn add_sat_px(p: u32, r: int, g: int, b: int) -> u32 {
    rgb(sat_add(chan(p, 0) as int, r), sat_add(chan(p, 1) as int, g), sat_add(chan(p, 2) as int, b))
}

/// Whether `(x, y)` is a pixel of a `w` x `h` frame.
pub open spec fn in_frame(w: int, h: int, x: int, y: int) -> bool {
    0 <= x < w && 0 <= y < h
}

/// Adds `(r, g, b)` to the pixel at `(x, y)`, saturating each channel at 255;
/// coordinates outside the frame are skipped.
pub fn add_rgb_saturating(fb: &mut FrameBuffer, x: i64, y: i64, r: u8, g: u8, b: u8)
    requires
        old(fb).wf(),
    ensures
        final(fb).width == old(fb).width,
        final(fb).height == old(fb).height,
        final(fb).wf(),
        in_frame(old(fb).width as int, old(fb).height as int, x as int, y as int) ==> final(fb).pixels@
            == old(fb).pixels@.update(
            y * old(fb).width + x,
            add_sat_px(old(fb).pixels@[y * old(fb).width + x], r as int, g as int, b as int),
        ),
        !in_frame(old(fb).width as int, old(fb).height as int, x as int, y as int) ==> final(fb).pixels@
            == old(fb).pixels@,
{
    if x < 0 || y < 0 {
        return;
    }
    if x as u64 >= fb.width as u64 || y as u64 >= fb.height as u64 {
        return;
    }
    let ux = x as usize;
    let uy = y as usize;
    // The pixel count bounds the index computed below.
    let _len = fb.pixels.len();
    proof {
        lemma_grid_index(fb.width as int, fb.height as int, uy as int, ux as int);
    }
    let idx = uy * fb.width + ux;
    let (or, og, ob) = unpack(fb.pixels[idx]);
    let nr: u16 = or as u16 + r as u16;
    let ng: u16 = og as u16 + g as u16;
    let nb: u16 = ob as u16 + b as u16;
    let nr: u8 = if nr > 255 { 255 } else { nr as u8 };
    let ng: u8 = if ng > 255 { 255 } else { ng as u8 };
    let nb: u8 = if nb > 255 { 255 } else { nb as u8 };
    fb.pixels.set(idx, pack(nr, ng, nb));
}

} // verus!

verus! {

/// The largest disc radius a kernel may have, so that its cells stay indexable.
pub const MAX_DISC_RADIUS: i32 = 4096;

/// Squared distance of cell `(kx, ky)` from the centre of a kernel of radius `r`.
pub open spec fn cell_dist2(r: int, kx: int, ky: int) -> int {
    (kx - r) * (kx - r) + (ky - r) * (ky - r)
}

/// A square glow kernel of 8-bit weights, row-major, `dim` = `2 * radius + 1` cells a side.
pub struct DiscKernel {
    pub radius: i32,
    pub dim: i32,
    pub weights: Vec<u8>,
}

impl DiscKernel {
    /// Radius in range, `dim == 2 * radius + 1`, and one weight per cell.
    pub open spec fn wf(&self) -> bool {
        &&& 0 <= self.radius <= MAX_DISC_RADIUS
        &&& self.dim == 2 * self.radius + 1
        &&& self.weights@.len() == self.dim * self.dim
    }

    /// Each cell holds `profile` at the cell's squared distance from the centre.
    pub open spec fn follows_profile(&self, profile: Seq<u8>) -> bool {
        forall|i: int|
            0 <= i < self.weights@.len() ==> #[trigger] self.weights@[i] == profile[cell_dist2(
                self.radius as int,
                i % (self.dim as int),
                i / (self.dim as int),
            )]
    }

    /// Lays out a radially symmetric kernel: the cell at offset `(dx, dy)` from the
    /// centre gets `profile[dx * dx + dy * dy]`.
    pub fn from_profile(radius: i32, profile: &Vec<u8>) -> (k: Self)
        requires
            0 <= radius <= MAX_DISC_RADIUS,
            profile@.len() > 2 * radius * radius,
        ensures
            k.wf(),
            k.radius == radius,
            k.follows_profile(profile@),
    {
        let dim: i32 = 2 * radius + 1;
        let ghost r = radius as int;
        let ghost d = dim as int;
        proof {
            assert(0 < d * d <= 8193 * 8193) by (nonlinear_arith)
                requires
                    0 < d <= 8193,
            ;
        }
        let mut weights: Vec<u8> = Vec::with_capacity((dim * dim) as usize);
        let mut ky: i32 = 0;
        while ky < dim
            invariant
                0 <= ky <= dim,
                dim == 2 * radius + 1,
                r == radius,
                d == dim,
                0 <= radius <= MAX_DISC_RADIUS,
                profile@.len() > 2 * radius * radius,
                weights@.len() == ky * d,
                forall|i: int|
                    0 <= i < weights@.len() ==> #[trigger] weights@[i] == profile@[cell_dist2(
                        r,
                        i % d,
                        i / d,
                    )],
            decreases dim - ky,
        {
            let mut kx: i32 = 0;
            while kx < dim
                invariant
                    0 <= kx <= dim,
                    0 <= ky < dim,
                    dim == 2 * radius + 1,
                    r == radius,
                    d == dim,
                    0 <= radius <= MAX_DISC_RADIUS,
                    profile@.len() > 2 * radius * radius,
                    weights@.len() == ky * d + kx,
                    forall|i: int|
                        0 <= i < weights@.len() ==> #[trigger] weights@[i] == profile@[cell_dist2(
                            r,
                            i % d,
                            i / d,
                        )],
                decreases dim - kx,
            {
                let dx: i32 = kx - radius;
                let dy: i32 = ky - radius;
                proof {
                    assert(0 <= dx * dx <= r * r && 0 <= dy * dy <= r * r) by (nonlinear_arith)
                        requires
                            -r <= dx <= r,
                            -r <= dy <= r,
                    ;
                    assert(r * r <= 4096 * 4096) by (nonlinear_arith)
                        requires
                            0 <= r <= 4096,
                    ;
                    lemma_grid_index(d, d, ky as int, kx as int);
                    assert(2 * r * r == r * r + r * r) by (nonlinear_arith);
                    assert(dx * dx + dy * dy < profile@.len());
                }
                let d2: i32 = dx * dx + dy * dy;
                weights.push(profile[d2 as usize]);
                kx = kx + 1;
            }
            proof {
                assert(ky * d + d == (ky + 1) * d) by (nonlinear_arith);
            }
            ky = ky + 1;
        }
        DiscKernel { radius, dim, weights }
    }
}

/// A kernel laid out from a radial profile is unchanged by a half-turn about its
/// centre: the weight list reads the same forwards and backwards.
pub proof fn lemma_disc_half_turn(k: &DiscKernel, profile: Seq<u8>)
    requires
        k.wf(),
        k.follows_profile(profile),
    ensures
        forall|i: int|
            0 <= i < k.weights@.len() ==> #[trigger] k.weights@[i] == k.weights@[k.weights@.len() - 1 - i],
{
    let d = k.dim as int;
    let r = k.radius as int;
    let n = k.weights@.len() as int;
    assert forall|i: int| 0 <= i < n implies #[trigger] k.weights@[i] == k.weights@[n - 1 - i] by {
        lemma_grid_split(d, d, i);
        let kx = i % d;
        let ky = i / d;
        let j = n - 1 - i;
        assert(j == (d - 1 - ky) * d + (d - 1 - kx)) by (nonlinear_arith)
            requires
                n == d * d,
                i == ky * d + kx,
                j == n - 1 - i,
        ;
        lemma_grid_index(d, d, d - 1 - ky, d - 1 - kx);
        assert(cell_dist2(r, d - 1 - kx, d - 1 - ky) == cell_dist2(r, kx, ky)) by (nonlinear_arith)
            requires
                d == 2 * r + 1,
        ;
    }
}

} // verus!

verus! {

/// `base * wt / 255`, rounded to nearest.
pub open spec fn scale8(base: int, wt: int) -> int {
    (base * wt + 127) / 255
}

/// Kernel column that covers pixel `i` of a frame `w` wide when stamped at column `cx`.
pub open spec fn kernel_col(k: &DiscKernel, w: int, i: int, cx: int) -> int {
    i % w - cx + k.radius
}

/// Kernel row that covers pixel `i` of a frame `w` wide when stamped at row `cy`.
pub open spec fn kernel_row(k: &DiscKernel, w: int, i: int, cy: int) -> int {
    i / w - cy + k.radius
}

/// Pixel `i` (previously `p`) after the kernel is stamped at `(cx, cy)` with colour
/// `(br, bg, bb)` at strength `level` / 255: a covering cell of nonzero weight
/// adds the colour scaled by weight and strength, saturating; other pixels keep `p`.
pub open spec fn glow_px(
    k: &DiscKernel,
    w: int,
    i: int,
    p: u32,
    cx: int,
    cy: int,
    br: int,
    bg: int,
    bb: int,
    level: int,
) -> u32 {
    let kx = kernel_col(k, w, i, cx);
    let ky = kernel_row(k, w, i, cy);
    if 0 <= kx < k.dim && 0 <= ky < k.dim && k.weights@[ky * k.dim + kx] != 0 {
        let ws = scale8(k.weights@[ky * k.dim + kx] as int, level);
        add_sat_px(p, scale8(br, ws), scale8(bg, ws), scale8(bb, ws))
    } else {
        p
    }
}

proof fn lemma_scale8_fits(base: int, wt: int)
    requires
        0 <= base <= 255,
        0 <= wt <= 255,
    ensures
        0 <= base * wt + 127 <= 255 * 255 + 127,
        0 <= scale8(base, wt) <= 255,
{
    assert(0 <= base * wt <= 255 * 255) by (nonlinear_arith)
        requires
            0 <= base <= 255,
            0 <= wt <= 255,
    ;
}

impl DiscKernel {
    /// Stamps the kernel centred at `(cx, cy)`: every covered in-frame pixel gains
    /// the colour `(base_r, base_g, base_b)` scaled by the cell weight and by
    /// `level` / 255, each channel saturating at 255. Cells off the frame are skipped.
    pub fn stamp_additive(
        &self,
        fb: &mut FrameBuffer,
        cx: i32,
        cy: i32,
        base_r: u8,
        base_g: u8,
        base_b: u8,
        level: u8,
    )
        requires
            self.wf(),
            old(fb).wf(),
        ensures
            final(fb).width == old(fb).width,
            final(fb).height == old(fb).height,
            final(fb).wf(),
            forall|i: int|
                0 <= i < final(fb).pixels@.len() ==> #[trigger] final(fb).pixels@[i] == glow_px(
                    self,
                    old(fb).width as int,
                    i,
                    old(fb).pixels@[i],
                    cx as int,
                    cy as int,
                    base_r as int,
                    base_g as int,
                    base_b as int,
                    level as int,
                ),
    {
        let ghost old_px = fb.pixels@;
        let ghost wi = fb.width as int;
        let ghost hi = fb.height as int;
        let r = self.radius;
        let dim = self.dim;
        proof {
            assert(0 < dim * dim <= 8193 * 8193) by (nonlinear_arith)
                requires
                    0 < dim <= 8193,
            ;
        }
        let mut ky: i32 = 0;
        while ky < dim
            invariant
                0 <= ky <= dim,
                self.wf(),
                r == self.radius,
                dim == self.dim,
                fb.wf(),
                fb.width == wi,
                fb.height == hi,
                fb.pixels@.len() == old_px.len(),
                forall|i: int|
                    0 <= i < old_px.len() ==> #[trigger] fb.pixels@[i] == if kernel_row(
                        self,
                        wi,
                        i,
                        cy as int,
                    ) < ky {
                        glow_px(
                            self,
                            wi,
                            i,
                            old_px[i],
                            cx as int,
                            cy as int,
                            base_r as int,
                            base_g as int,
                            base_b as int,
                            level as int,
                        )
                    } else {
                        old_px[i]
                    },
            decreases dim - ky,
        {
            let mut kx: i32 = 0;
            while kx < dim
                invariant
                    0 <= kx <= dim,
                    0 <= ky < dim,
                    self.wf(),
                    r == self.radius,
                    dim == self.dim,
                    fb.wf(),
                    fb.width == wi,
                    fb.height == hi,
                    fb.pixels@.len() == old_px.len(),
                    forall|i: int|
                        0 <= i < old_px.len() ==> #[trigger] fb.pixels@[i] == if kernel_row(
                            self,
                            wi,
                            i,
                            cy as int,
                        ) < ky || (kernel_row(self, wi, i, cy as int) == ky && kernel_col(
                            self,
                            wi,
                            i,
                            cx as int,
                        ) < kx) {
                            glow_px(
                                self,
                                wi,
                                i,
                                old_px[i],
                                cx as int,
                                cy as int,
                                base_r as int,
                                base_g as int,
                                base_b as int,
                                level as int,
                            )
                        } else {
                            old_px[i]
                        },
                decreases dim - kx,
            {
                let sx: i64 = cx as i64 + kx as i64 - r as i64;
                let sy: i64 = cy as i64 + ky as i64 - r as i64;
                proof {
                    lemma_grid_index(dim as int, dim as int, ky as int, kx as int);
                    assert(dim * dim <= 8193 * 8193) by (nonlinear_arith)
                        requires
                            0 < dim <= 8193,
                    ;
                }
                let w8 = self.weights[(ky * dim + kx) as usize];
                let ghost before = fb.pixels@;
                if w8 != 0 {
                    proof {
                        lemma_scale8_fits(w8 as int, level as int);
                        lemma_scale8_fits(base_r as int, scale8(w8 as int, level as int));
                        lemma_scale8_fits(base_g as int, scale8(w8 as int, level as int));
                        lemma_scale8_fits(base_b as int, scale8(w8 as int, level as int));
                    }
                    let ws: u16 = (w8 as u16 * level as u16 + 127) / 255;
                    let rr = ((base_r as u16 * ws + 127) / 255) as u8;
                    let gg = ((base_g as u16 * ws + 127) / 255) as u8;
                    let bb = ((base_b as u16 * ws + 127) / 255) as u8;
                    add_rgb_saturating(fb, sx, sy, rr, gg, bb);
                }
                proof {
                    assert forall|i: int| 0 <= i < old_px.len() implies #[trigger] fb.pixels@[i]
                        == if kernel_row(self, wi, i, cy as int) < ky || (kernel_row(
                        self,
                        wi,
                        i,
                        cy as int,
                    ) == ky && kernel_col(self, wi, i, cx as int) < kx + 1) {
                        glow_px(
                            self,
                            wi,
                            i,
                            old_px[i],
                            cx as int,
                            cy as int,
                            base_r as int,
                            base_g as int,
                            base_b as int,
                            level as int,
                        )
                    } else {
                        old_px[i]
                    } by {
                        if kernel_row(self, wi, i, cy as int) == ky && kernel_col(self, wi, i, cx as int)
                            == kx {
                            lemma_grid_split(wi, hi, i);
                            assert(i == sy * wi + sx);
                        } else if w8 != 0 && in_frame(wi, hi, sx as int, sy as int) {
                            lemma_grid_index(wi, hi, sy as int, sx as int);
                            assert(i != sy * wi + sx);
                        }
                    }
                }
                kx = kx + 1;
            }
            ky = ky + 1;
        }
    }
}

} // verus!
