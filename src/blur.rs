//! Separable box blur with edge-clamped sampling and sliding-window sums.
use vstd::prelude::*;
use vstd::string::StringExecFns;
use crate::error::Error;
use crate::types::{
    chan, rgb, is_rgb24, pack, unpack, lemma_channels_of_rgb, lemma_rgb_of_channels, lemma_grid_index,
    lemma_grid_split, FrameBuffer,
};

verus! {

/// Position `j` moved onto the nearest valid index of a line of length `n`.
pub open spec fn clamp_index(j: int, n: int) -> int {
    if j < 0 {
        0
    } else if j >= n {
        n - 1
    } else {
        j
    }
}

/// Sum of channel `c` over positions `lo .. hi` of `line`, reading past either
/// end as the nearest edge pixel.
pub open spec fn window_sum(line: Seq<u32>, c: int, lo: int, hi: int) -> int
    decreases hi - lo,
{
    if hi <= lo {
        0
    } else {
        window_sum(line, c, lo, hi - 1) + chan(line[clamp_index(hi - 1, line.len() as int)], c) as int
    }
}

/// Mean of channel `c` over the window of radius `r` centred at `i`, rounded down.
pub open spec fn box_mean(line: Seq<u32>, c: int, i: int, r: int) -> int {
    window_sum(line, c, i - r, i + r + 1) / (2 * r + 1)
}

/// The pixel at `i` of the blurred line.
pub open spec fn blurred(line: Seq<u32>, i: int, r: int) -> u32 {
    rgb(box_mean(line, 0, i, r), box_mean(line, 1, i, r), box_mean(line, 2, i, r))
}

/// The `n` pixels of `img` at `start`, `start + stride`, `start + 2 * stride`, ...
pub open spec fn line_of(img: Seq<u32>, start: int, stride: int, n: int) -> Seq<u32> {
    Seq::new(n as nat, |j: int| img[start + j * stride])
}

/// Every row of a `w` x `h` image blurred along its length.
pub open spec fn horizontal_pass(img: Seq<u32>, w: int, h: int, r: int) -> Seq<u32> {
    Seq::new((w * h) as nat, |k: int| blurred(line_of(img, (k / w) * w, 1, w), k % w, r))
}

/// Every column of a `w` x `h` image blurred along its length.
pub open spec fn vertical_pass(img: Seq<u32>, w: int, h: int, r: int) -> Seq<u32> {
    Seq::new((w * h) as nat, |k: int| blurred(line_of(img, k % w, w, h), k / w, r))
}

/// The box blur of radius `r`: rows first, then columns of the result.
pub open spec fn box_blur(img: Seq<u32>, w: int, h: int, r: int) -> Seq<u32> {
    vertical_pass(horizontal_pass(img, w, h, r), w, h, r)
}

proof fn lemma_window_drop_first(line: Seq<u32>, c: int, lo: int, hi: int)
    requires
        lo < hi,
    ensures
        window_sum(line, c, lo, hi) == chan(line[clamp_index(lo, line.len() as int)], c)
            + window_sum(line, c, lo + 1, hi),
    decreases hi - lo,
{
    let n = line.len() as int;
    assert(window_sum(line, c, lo, hi) == window_sum(line, c, lo, hi - 1) + chan(
        line[clamp_index(hi - 1, n)],
        c,
    ));
    if lo < hi - 1 {
        lemma_window_drop_first(line, c, lo, hi - 1);
        assert(window_sum(line, c, lo + 1, hi) == window_sum(line, c, lo + 1, hi - 1) + chan(
            line[clamp_index(hi - 1, n)],
            c,
        ));
    } else {
        assert(window_sum(line, c, lo, hi - 1) == 0);
        assert(window_sum(line, c, lo + 1, hi) == 0);
    }
}

proof fn lemma_window_bounds(line: Seq<u32>, c: int, lo: int, hi: int)
    requires
        lo <= hi,
    ensures
        0 <= window_sum(line, c, lo, hi) <= 255 * (hi - lo),
    decreases hi - lo,
{
    if lo < hi {
        lemma_window_bounds(line, c, lo, hi - 1);
    }
}

/// All window positions at or left of the first pixel read that pixel.
proof fn lemma_window_left_edge(line: Seq<u32>, c: int, r: int)
    requires
        line.len() > 0,
        r >= 0,
    ensures
        window_sum(line, c, -r, 1) == (r + 1) * chan(line[0], c),
    decreases r,
{
    let x = chan(line[0], c) as int;
    if r > 0 {
        lemma_window_drop_first(line, c, -r, 1);
        lemma_window_left_edge(line, c, r - 1);
        assert(clamp_index(-r, line.len() as int) == 0);
        assert(window_sum(line, c, -r, 1) == x + window_sum(line, c, -(r - 1), 1));
        assert(window_sum(line, c, -(r - 1), 1) == r * x);
        let s = window_sum(line, c, -r, 1);
        let t = window_sum(line, c, -(r - 1), 1);
        assert(s == (r + 1) * x) by (nonlinear_arith)
            requires
                s == x + t,
                t == r * x,
        ;
    } else {
        assert(window_sum(line, c, 0, 1) == window_sum(line, c, 0, 0) + x);
        assert(window_sum(line, c, 0, 0) == 0);
        assert((r + 1) * x == x) by (nonlinear_arith)
            requires
                r == 0,
        ;
    }
}

proof fn lemma_mean_fits(s: int, win: int)
    requires
        0 <= s <= 255 * win,
        win > 0,
    ensures
        0 <= s / win <= 255,
{
    assert(s / win <= 255) by (nonlinear_arith)
        requires
            0 <= s <= 255 * win,
            win > 0,
    ;
    assert(s / win >= 0) by (nonlinear_arith)
        requires
            0 <= s,
            win > 0,
    ;
}

proof fn lemma_line_offset(start: int, j: int, stride: int, n: int)
    requires
        0 <= j < n,
        0 <= stride,
        0 <= start,
    ensures
        start + j * stride <= start + (n - 1) * stride,
        0 <= j * stride,
{
    assert(j * stride <= (n - 1) * stride) by (nonlinear_arith)
        requires
            0 <= j < n,
            0 <= stride,
    ;
    assert(0 <= j * stride) by (nonlinear_arith)
        requires
            0 <= j,
            0 <= stride,
    ;
}

/// Blurs the `n` pixels of `src` at `start`, `start + stride`, ... with a window
/// of `2 * radius + 1` pixels, keeping one running sum per channel.
fn blur_line(src: &Vec<u32>, start: usize, stride: usize, n: usize, radius: usize) -> (out: Vec<u32>)
    requires
        0 < n,
        start + (n - 1) * stride < src@.len(),
        radius < 0x1_0000_0000,
    ensures
        out@.len() == n,
        forall|j: int|
            0 <= j < n ==> #[trigger] out@[j] == blurred(
                line_of(src@, start as int, stride as int, n as int),
                j,
                radius as int,
            ),
{
    let ghost line = line_of(src@, start as int, stride as int, n as int);
    let ghost ri = radius as int;
    let src_len = src.len();
    let r: u64 = radius as u64;
    let win: u64 = 2 * r + 1;
    let (a0, a1, a2) = unpack(src[start]);
    proof {
        assert((r + 1) * a0 as u64 <= 255 * 0x1_0000_0000) by (nonlinear_arith)
            requires
                a0 <= 255,
                r < 0x1_0000_0000,
        ;
        assert((r + 1) * a1 as u64 <= 255 * 0x1_0000_0000) by (nonlinear_arith)
            requires
                a1 <= 255,
                r < 0x1_0000_0000,
        ;
        assert((r + 1) * a2 as u64 <= 255 * 0x1_0000_0000) by (nonlinear_arith)
            requires
                a2 <= 255,
                r < 0x1_0000_0000,
        ;
    }
    let mut s0: u64 = (r + 1) * a0 as u64;
    let mut s1: u64 = (r + 1) * a1 as u64;
    let mut s2: u64 = (r + 1) * a2 as u64;
    proof {
        assert(line[0] == src@[start as int]);
        lemma_window_left_edge(line, 0, ri);
        lemma_window_left_edge(line, 1, ri);
        lemma_window_left_edge(line, 2, ri);
    }
    let mut k: u64 = 1;
    while k <= r
        invariant
            1 <= k <= r + 1,
            r == radius,
            ri == radius,
            src_len == src@.len(),
            line == line_of(src@, start as int, stride as int, n as int),
            0 < n,
            start + (n - 1) * stride < src@.len(),
            radius < 0x1_0000_0000,
            s0 == window_sum(line, 0, -ri, k as int),
            s1 == window_sum(line, 1, -ri, k as int),
            s2 == window_sum(line, 2, -ri, k as int),
        decreases r + 1 - k,
    {
        let idx: usize = if k < n as u64 {
            k as usize
        } else {
            n - 1
        };
        proof {
            lemma_line_offset(start as int, idx as int, stride as int, n as int);
            assert(start + idx * stride < src@.len());
            assert(line[clamp_index(k as int, n as int)] == src@[start + idx * stride]);
            lemma_window_bounds(line, 0, -ri, k as int);
            lemma_window_bounds(line, 1, -ri, k as int);
            lemma_window_bounds(line, 2, -ri, k as int);
        }
        let (b0, b1, b2) = unpack(src[start + idx * stride]);
        s0 = s0 + b0 as u64;
        s1 = s1 + b1 as u64;
        s2 = s2 + b2 as u64;
        k = k + 1;
    }
    let mut out: Vec<u32> = Vec::with_capacity(n);
    let mut j: usize = 0;
    while j < n
        invariant
            0 <= j <= n,
            r == radius,
            win == 2 * r + 1,
            ri == radius,
            src_len == src@.len(),
            line == line_of(src@, start as int, stride as int, n as int),
            start + (n - 1) * stride < src@.len(),
            radius < 0x1_0000_0000,
            out@.len() == j,
            forall|i: int| 0 <= i < j ==> #[trigger] out@[i] == blurred(line, i, ri),
            s0 == window_sum(line, 0, j - ri, j + ri + 1),
            s1 == window_sum(line, 1, j - ri, j + ri + 1),
            s2 == window_sum(line, 2, j - ri, j + ri + 1),
        decreases n - j,
    {
        proof {
            lemma_window_bounds(line, 0, j - ri, j + ri + 1);
            lemma_window_bounds(line, 1, j - ri, j + ri + 1);
            lemma_window_bounds(line, 2, j - ri, j + ri + 1);
            lemma_mean_fits(s0 as int, win as int);
            lemma_mean_fits(s1 as int, win as int);
            lemma_mean_fits(s2 as int, win as int);
        }
        out.push(pack((s0 / win) as u8, (s1 / win) as u8, (s2 / win) as u8));
        let left: usize = if j as u64 >= r {
            j - radius
        } else {
            0
        };
        let right: usize = if ((n - 1 - j) as u64) <= r {
            n - 1
        } else {
            j + radius + 1
        };
        proof {
            lemma_line_offset(start as int, left as int, stride as int, n as int);
            lemma_line_offset(start as int, right as int, stride as int, n as int);
            assert(start + left * stride < src@.len());
            assert(start + right * stride < src@.len());
            let lo = j - ri;
            let hi = j + ri + 1;
            assert(line[clamp_index(lo, n as int)] == src@[start + left * stride]);
            assert(line[clamp_index(hi, n as int)] == src@[start + right * stride]);
            lemma_window_drop_first(line, 0, lo, hi + 1);
            lemma_window_drop_first(line, 1, lo, hi + 1);
            lemma_window_drop_first(line, 2, lo, hi + 1);
            lemma_window_bounds(line, 0, lo + 1, hi + 1);
            lemma_window_bounds(line, 1, lo + 1, hi + 1);
            lemma_window_bounds(line, 2, lo + 1, hi + 1);
        }
        let (d0, d1, d2) = unpack(src[start + left * stride]);
        let (e0, e1, e2) = unpack(src[start + right * stride]);
        s0 = s0 + e0 as u64 - d0 as u64;
        s1 = s1 + e1 as u64 - d1 as u64;
        s2 = s2 + e2 as u64 - d2 as u64;
        j = j + 1;
    }
    out
}

} // verus!

verus! {

/// Blurs `src` into `dst` with a `(2 * radius + 1)` square box, sampling past
/// the edges as the nearest edge pixel. Rows are averaged into `tmp` first, then
/// the columns of `tmp` into `dst`; each pass divides its sum by the window
/// length, rounding down.
pub fn box_blur_rgb(src: &FrameBuffer, tmp: &mut FrameBuffer, dst: &mut FrameBuffer, radius: usize) -> (res:
    Result<(), Error>)
    requires
        src.wf(),
        old(tmp).wf(),
        old(dst).wf(),
        radius < 0x1_0000_0000,
    ensures
        final(tmp).width == old(tmp).width && final(tmp).height == old(tmp).height,
        final(dst).width == old(dst).width && final(dst).height == old(dst).height,
        final(tmp).wf(),
        final(dst).wf(),
        res is Ok <==> (src.same_dims(old(dst)) && src.same_dims(old(tmp))),
        res is Ok ==> final(tmp).pixels@ == horizontal_pass(
            src.pixels@,
            src.width as int,
            src.height as int,
            radius as int,
        ),
        res is Ok ==> final(dst).pixels@ == box_blur(
            src.pixels@,
            src.width as int,
            src.height as int,
            radius as int,
        ),
        !src.same_dims(old(dst)) ==> (res matches Err(Error::CameraFrame(m)) && m@
            == "box_blur: size mismatch src\u{2194}dst"@),
        src.same_dims(old(dst)) && !src.same_dims(old(tmp)) ==> (res matches Err(
            Error::CameraFrame(m),
        ) && m@ == "box_blur: size mismatch tmp"@),
        res is Err ==> *final(tmp) == *old(tmp) && *final(dst) == *old(dst),
{
    if src.width != dst.width || src.height != dst.height {
        return Err(Error::CameraFrame(String::from_str("box_blur: size mismatch src\u{2194}dst")));
    }
    if tmp.width != src.width || tmp.height != src.height {
        return Err(Error::CameraFrame(String::from_str("box_blur: size mismatch tmp")));
    }
    let w = src.width;
    let h = src.height;
    let ghost ri = radius as int;
    let ghost hp = horizontal_pass(src.pixels@, w as int, h as int, ri);
    if w == 0 || h == 0 {
        proof {
            assert(w * h == 0) by (nonlinear_arith)
                requires
                    w == 0 || h == 0,
            ;
            assert(tmp.pixels@ =~= hp);
            assert(dst.pixels@ =~= box_blur(src.pixels@, w as int, h as int, ri));
        }
        return Ok(());
    }
    let total = src.pixels.len();
    let mut y: usize = 0;
    while y < h
        invariant
            0 <= y <= h,
            total == w * h,
            0 < w,
            w == src.width,
            h == src.height,
            src.wf(),
            tmp.width == w,
            tmp.height == h,
            tmp.wf(),
            ri == radius,
            radius < 0x1_0000_0000,
            hp == horizontal_pass(src.pixels@, w as int, h as int, ri),
            forall|k: int| 0 <= k < y * w ==> #[trigger] tmp.pixels@[k] == hp[k],
        decreases h - y,
    {
        proof {
            lemma_grid_index(w as int, h as int, y as int, w - 1);
        }
        let row_ofs = y * w;
        let out = blur_line(&src.pixels, row_ofs, 1, w, radius);
        let mut x: usize = 0;
        while x < w
            invariant
                0 <= x <= w,
                0 <= y < h,
                row_ofs == y * w,
                row_ofs + w <= w * h,
                total == w * h,
                w == src.width,
                h == src.height,
                tmp.width == w,
                tmp.height == h,
                tmp.wf(),
                out@.len() == w,
                forall|j: int|
                    0 <= j < w ==> #[trigger] out@[j] == blurred(
                        line_of(src.pixels@, row_ofs as int, 1, w as int),
                        j,
                        ri,
                    ),
                hp == horizontal_pass(src.pixels@, w as int, h as int, ri),
                forall|k: int| 0 <= k < row_ofs + x ==> #[trigger] tmp.pixels@[k] == hp[k],
            decreases w - x,
        {
            proof {
                lemma_grid_index(w as int, h as int, y as int, x as int);
            }
            tmp.pixels.set(row_ofs + x, out[x]);
            x = x + 1;
        }
        proof {
            assert((y + 1) * w == y * w + w) by (nonlinear_arith);
        }
        y = y + 1;
    }
    proof {
        assert(h * w == w * h) by (nonlinear_arith);
        assert(tmp.pixels@ =~= hp);
    }
    let ghost vp = vertical_pass(tmp.pixels@, w as int, h as int, ri);
    let mut x: usize = 0;
    while x < w
        invariant
            0 <= x <= w,
            total == w * h,
            0 < w,
            0 < h,
            w == src.width,
            h == src.height,
            tmp.wf(),
            tmp.width == w,
            tmp.height == h,
            dst.width == w,
            dst.height == h,
            dst.wf(),
            ri == radius,
            radius < 0x1_0000_0000,
            vp == vertical_pass(tmp.pixels@, w as int, h as int, ri),
            forall|k: int| 0 <= k < w * h && k % (w as int) < x ==> #[trigger] dst.pixels@[k] == vp[k],
        decreases w - x,
    {
        proof {
            lemma_grid_index(w as int, h as int, h - 1, x as int);
        }
        let out = blur_line(&tmp.pixels, x, w, h, radius);
        let mut y: usize = 0;
        while y < h
            invariant
                0 <= y <= h,
                0 <= x < w,
                total == w * h,
                w == src.width,
                h == src.height,
                dst.width == w,
                dst.height == h,
                dst.wf(),
                out@.len() == h,
                forall|j: int|
                    0 <= j < h ==> #[trigger] out@[j] == blurred(
                        line_of(tmp.pixels@, x as int, w as int, h as int),
                        j,
                        ri,
                    ),
                vp == vertical_pass(tmp.pixels@, w as int, h as int, ri),
                forall|k: int|
                    0 <= k < w * h && (k % (w as int) < x || (k % (w as int) == x && k / (w as int) < y))
                        ==> #[trigger] dst.pixels@[k] == vp[k],
            decreases h - y,
        {
            proof {
                lemma_grid_index(w as int, h as int, y as int, x as int);
            }
            dst.pixels.set(y * w + x, out[y]);
            proof {
                assert forall|k: int|
                    0 <= k < w * h && (k % (w as int) < x || (k % (w as int) == x && k / (w as int) < y
                        + 1)) implies #[trigger] dst.pixels@[k] == vp[k] by {
                    if k != y * w + x {
                        lemma_grid_split(w as int, h as int, k);
                        if k % (w as int) == x && k / (w as int) == y {
                            assert(false);
                        }
                    }
                }
            }
            y = y + 1;
        }
        proof {
            assert forall|k: int| 0 <= k < w * h && k % (w as int) < x + 1 implies #[trigger] dst.pixels@[k]
                == vp[k] by {
                lemma_grid_split(w as int, h as int, k);
            }
        }
        x = x + 1;
    }
    proof {
        assert forall|k: int| 0 <= k < w * h implies #[trigger] dst.pixels@[k] == vp[k] by {
            lemma_grid_split(w as int, h as int, k);
        }
        assert(dst.pixels@ =~= vp);
    }
    Ok(())
}

} // verus!

verus! {

proof fn lemma_window_uniform(line: Seq<u32>, c: int, lo: int, hi: int, p: u32)
    requires
        lo <= hi,
        line.len() > 0,
        forall|j: int| 0 <= j < line.len() ==> line[j] == p,
    ensures
        window_sum(line, c, lo, hi) == (hi - lo) * chan(p, c),
    decreases hi - lo,
{
    let x = chan(p, c) as int;
    if lo < hi {
        lemma_window_uniform(line, c, lo, hi - 1, p);
        let t = window_sum(line, c, lo, hi - 1);
        assert(window_sum(line, c, lo, hi) == t + x);
        assert(t + x == (hi - lo) * x) by (nonlinear_arith)
            requires
                t == (hi - 1 - lo) * x,
        ;
    } else {
        assert((hi - lo) * x == 0) by (nonlinear_arith)
            requires
                hi == lo,
        ;
    }
}

proof fn lemma_blurred_uniform(line: Seq<u32>, i: int, r: int, p: u32)
    requires
        r >= 0,
        line.len() > 0,
        is_rgb24(p),
        forall|j: int| 0 <= j < line.len() ==> line[j] == p,
    ensures
        blurred(line, i, r) == p,
{
    assert forall|c: int| 0 <= c < 3 implies box_mean(line, c, i, r) == chan(p, c) by {
        lemma_window_uniform(line, c, i - r, i + r + 1, p);
        let x = chan(p, c) as int;
        vstd::arithmetic::div_mod::lemma_div_multiples_vanish(x, 2 * r + 1);
        assert((i + r + 1 - (i - r)) * x == (2 * r + 1) * x);
    }
    lemma_rgb_of_channels(p);
}

proof fn lemma_blurred_fits(line: Seq<u32>, i: int, r: int)
    requires
        r >= 0,
    ensures
        is_rgb24(blurred(line, i, r)),
        forall|c: int| 0 <= c < 3 ==> 0 <= #[trigger] box_mean(line, c, i, r) <= 255,
{
    assert forall|c: int| 0 <= c < 3 implies 0 <= #[trigger] box_mean(line, c, i, r) <= 255 by {
        lemma_window_bounds(line, c, i - r, i + r + 1);
        lemma_mean_fits(window_sum(line, c, i - r, i + r + 1), 2 * r + 1);
    }
    lemma_channels_of_rgb(box_mean(line, 0, i, r), box_mean(line, 1, i, r), box_mean(line, 2, i, r));
}

/// Blurring an image whose pixels all hold one colour leaves every pixel as it was.
pub proof fn lemma_blur_uniform(img: Seq<u32>, w: int, h: int, r: int, p: u32)
    requires
        0 <= w,
        0 <= h,
        r >= 0,
        img.len() == w * h,
        is_rgb24(p),
        forall|k: int| 0 <= k < img.len() ==> img[k] == p,
    ensures
        horizontal_pass(img, w, h, r) == img,
        box_blur(img, w, h, r) == img,
{
    let hp = horizontal_pass(img, w, h, r);
    assert forall|k: int| 0 <= k < w * h implies #[trigger] hp[k] == p by {
        assert(w > 0) by (nonlinear_arith)
            requires
                0 <= k < w * h,
                0 <= w,
                0 <= h,
        ;
        lemma_grid_split(w, h, k);
        let y = k / w;
        let line = line_of(img, y * w, 1, w);
        assert forall|j: int| 0 <= j < line.len() implies line[j] == p by {
            lemma_grid_index(w, h, y, j);
        }
        lemma_blurred_uniform(line, k % w, r, p);
    }
    assert(hp =~= img);
    let vp = vertical_pass(hp, w, h, r);
    assert forall|k: int| 0 <= k < w * h implies #[trigger] vp[k] == p by {
        assert(w > 0) by (nonlinear_arith)
            requires
                0 <= k < w * h,
                0 <= w,
                0 <= h,
        ;
        lemma_grid_split(w, h, k);
        let x = k % w;
        let line = line_of(hp, x, w, h);
        assert forall|j: int| 0 <= j < line.len() implies line[j] == p by {
            lemma_grid_index(w, h, j, x);
            assert(j * w + x == x + j * w);
        }
        lemma_blurred_uniform(line, k / w, r, p);
    }
    assert(vp =~= img);
}

/// Every channel of a blurred image lies in 0..=255, so each pixel keeps the
/// 0x00RRGGBB form; this holds again when the blur is applied a second time.
pub proof fn lemma_blur_in_range(img: Seq<u32>, w: int, h: int, r: int)
    requires
        0 <= w,
        0 <= h,
        r >= 0,
    ensures
        forall|k: int| 0 <= k < w * h ==> is_rgb24(#[trigger] box_blur(img, w, h, r)[k]),
        forall|k: int|
            0 <= k < w * h ==> is_rgb24(#[trigger] box_blur(box_blur(img, w, h, r), w, h, r)[k]),
{
    assert forall|k: int| 0 <= k < w * h implies is_rgb24(#[trigger] box_blur(img, w, h, r)[k]) by {
        lemma_blurred_fits(line_of(horizontal_pass(img, w, h, r), k % w, w, h), k / w, r);
    }
    let once = box_blur(img, w, h, r);
    assert forall|k: int| 0 <= k < w * h implies is_rgb24(#[trigger] box_blur(once, w, h, r)[k]) by {
        lemma_blurred_fits(line_of(horizontal_pass(once, w, h, r), k % w, w, h), k / w, r);
    }
}

} // verus!
