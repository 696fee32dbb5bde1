//! Software drawing on frame buffers: pixels, lines, a crosshair and a 5x7 font.
use vstd::prelude::*;
use vstd::string::StrSliceExecFns;
use crate::types::{lemma_grid_index, lemma_grid_split, FrameBuffer};
use crate::fx::in_frame;

verus! {

/// Column of pixel `k` in a frame `w` wide.
pub open spec fn col_of(w: int, k: int) -> int {
    k % w
}

/// Row of pixel `k` in a frame `w` wide.
pub open spec fn row_of(w: int, k: int) -> int {
    k / w
}

/// `p` lies between `a` and `b`, both included, in either order.
pub open spec fn between(a: int, b: int, p: int) -> bool {
    (a <= p <= b) || (b <= p <= a)
}

/// `(px, py)` lies on the horizontal or vertical segment from `(x0, y0)` to `(x1, y1)`.
pub open spec fn on_axis_segment(x0: int, y0: int, x1: int, y1: int, px: int, py: int) -> bool {
    ||| (y0 == y1 && py == y0 && between(x0, x1, px))
    ||| (x0 == x1 && px == x0 && between(y0, y1, py))
}

/// How far `p` is from `from`, counted in the direction of `s` (1 or -1).
pub open spec fn dist_along(s: int, from: int, p: int) -> int {
    if s == 1 {
        p - from
    } else {
        from - p
    }
}

/// Sets the pixel at `(x, y)` to `color`; coordinates outside the frame are skipped.
fn put_pixel(fb: &mut FrameBuffer, x: i64, y: i64, color: u32)
    requires
        old(fb).wf(),
    ensures
        final(fb).width == old(fb).width,
        final(fb).height == old(fb).height,
        final(fb).wf(),
        in_frame(old(fb).width as int, old(fb).height as int, x as int, y as int) ==> final(fb).pixels@
            == old(fb).pixels@.update(y * old(fb).width + x, color),
        !in_frame(old(fb).width as int, old(fb).height as int, x as int, y as int) ==> final(fb).pixels@
            == old(fb).pixels@,
{
    if x < 0 || y < 0 {
        return;
    }
    if x as u64 >= fb.width as u64 || y as u64 >= fb.height as u64 {
        return;
    }
    let ux = x as usize;
    let uy = y as usize;
    // The pixel count bounds the index computed below.
    let _len = fb.pixels.len();
    proof {
        lemma_grid_index(fb.width as int, fb.height as int, uy as int, ux as int);
    }
    let idx = uy * fb.width + ux;
    fb.pixels.set(idx, color);
}

proof fn lemma_pixel_at(w: int, h: int, k: int, x: int, y: int)
    requires
        0 < w,
        0 <= k < w * h,
    ensures
        (col_of(w, k) == x && row_of(w, k) == y) <==> (in_frame(w, h, x, y) && k == y * w + x),
        in_frame(w, h, x, y) ==> 0 <= y * w + x < w * h,
{
    lemma_grid_split(w, h, k);
    if in_frame(w, h, x, y) {
        lemma_grid_index(w, h, y, x);
    }
}

/// Draws a 1-pixel line from `(x0, y0)` to `(x1, y1)` with Bresenham's algorithm.
/// Only pixels of the frame change, and only to `color`; both end points are drawn;
/// a horizontal or vertical line colours exactly the pixels between its end points.
fn draw_line(fb: &mut FrameBuffer, x0: i32, y0: i32, x1: i32, y1: i32, color: u32)
    requires
        old(fb).wf(),
    ensures
        final(fb).width == old(fb).width,
        final(fb).height == old(fb).height,
        final(fb).wf(),
        forall|k: int|
            0 <= k < final(fb).pixels@.len() ==> #[trigger] final(fb).pixels@[k] == old(fb).pixels@[k]
                || final(fb).pixels@[k] == color,
        in_frame(old(fb).width as int, old(fb).height as int, x0 as int, y0 as int)
            ==> final(fb).pixels@[y0 * old(fb).width + x0] == color,
        in_frame(old(fb).width as int, old(fb).height as int, x1 as int, y1 as int)
            ==> final(fb).pixels@[y1 * old(fb).width + x1] == color,
        x0 == x1 || y0 == y1 ==> forall|k: int|
            0 <= k < final(fb).pixels@.len() ==> #[trigger] final(fb).pixels@[k] == if on_axis_segment(
                x0 as int,
                y0 as int,
                x1 as int,
                y1 as int,
                col_of(old(fb).width as int, k),
                row_of(old(fb).width as int, k),
            ) {
                color
            } else {
                old(fb).pixels@[k]
            },
{
    let ghost old_px = fb.pixels@;
    let ghost w = fb.width as int;
    let ghost h = fb.height as int;
    let tx = x1 as i64;
    let ty = y1 as i64;
    let mut x = x0 as i64;
    let mut y = y0 as i64;
    let dx: i64 = if tx >= x {
        tx - x
    } else {
        x - tx
    };
    let sx: i64 = if x < tx {
        1
    } else {
        -1
    };
    let dy: i64 = if ty >= y {
        y - ty
    } else {
        ty - y
    };
    let sy: i64 = if y < ty {
        1
    } else {
        -1
    };
    let mut err: i64 = dx + dy;
    let ghost a = dx as int;
    let ghost b = -dy as int;
    let ghost mut i: int = 0;
    let ghost mut j: int = 0;
    proof {
        assert(old_px.len() == w * h);
    }
    loop
        invariant_except_break
            b == 0 ==> forall|k: int|
                0 <= k < old_px.len() ==> #[trigger] fb.pixels@[k] == if row_of(w, k) == y0 && 0
                    <= dist_along(sx as int, x0 as int, col_of(w, k)) < i {
                    color
                } else {
                    old_px[k]
                },
            a == 0 ==> forall|k: int|
                0 <= k < old_px.len() ==> #[trigger] fb.pixels@[k] == if col_of(w, k) == x0 && 0
                    <= dist_along(sy as int, y0 as int, row_of(w, k)) < j {
                    color
                } else {
                    old_px[k]
                },
        invariant
            fb.wf(),
            fb.width == w,
            fb.height == h,
            fb.pixels@.len() == old_px.len(),
            old_px.len() == w * h,
            0 <= w,
            0 <= h,
            a == dx,
            b == -dy,
            0 <= a <= 0x1_0000_0000,
            0 <= b <= 0x1_0000_0000,
            sx == 1 || sx == -1,
            sy == 1 || sy == -1,
            sx == 1 <==> x0 < x1,
            sy == 1 <==> y0 < y1,
            dist_along(sx as int, x0 as int, x1 as int) == a,
            dist_along(sy as int, y0 as int, y1 as int) == b,
            0 <= i <= a,
            0 <= j <= b,
            dist_along(sx as int, x0 as int, x as int) == i,
            dist_along(sy as int, y0 as int, y as int) == j,
            err == a * (1 + j) - b * (1 + i),
            -3 * b <= 2 * err <= 3 * a,
            tx == x1,
            ty == y1,
            forall|k: int|
                0 <= k < old_px.len() ==> #[trigger] fb.pixels@[k] == old_px[k] || fb.pixels@[k] == color,
            (i > 0 || j > 0) && in_frame(w, h, x0 as int, y0 as int) ==> fb.pixels@[y0 * w + x0] == color,
        ensures
            fb.wf(),
            fb.width == w,
            fb.height == h,
            forall|k: int|
                0 <= k < old_px.len() ==> #[trigger] fb.pixels@[k] == old_px[k] || fb.pixels@[k] == color,
            in_frame(w, h, x0 as int, y0 as int) ==> fb.pixels@[y0 * w + x0] == color,
            in_frame(w, h, x1 as int, y1 as int) ==> fb.pixels@[y1 * w + x1] == color,
            b == 0 ==> forall|k: int|
                0 <= k < old_px.len() ==> #[trigger] fb.pixels@[k] == if row_of(w, k) == y0 && 0
                    <= dist_along(sx as int, x0 as int, col_of(w, k)) <= a {
                    color
                } else {
                    old_px[k]
                },
            a == 0 ==> forall|k: int|
                0 <= k < old_px.len() ==> #[trigger] fb.pixels@[k] == if col_of(w, k) == x0 && 0
                    <= dist_along(sy as int, y0 as int, row_of(w, k)) <= b {
                    color
                } else {
                    old_px[k]
                },
        decreases (a - i) + (b - j),
    {
        let ghost before = fb.pixels@;
        put_pixel(fb, x, y, color);
        proof {
            assert forall|k: int| 0 <= k < old_px.len() implies #[trigger] fb.pixels@[k] == if col_of(w, k)
                == x && row_of(w, k) == y {
                color
            } else {
                before[k]
            } by {
                assert(w > 0) by (nonlinear_arith)
                    requires
                        0 <= k < w * h,
                        0 <= w,
                        0 <= h,
                ;
                lemma_pixel_at(w, h, k, x as int, y as int);
                if in_frame(w, h, x as int, y as int) {
                    let idx = y * w + x;
                    assert(fb.pixels@ == before.update(idx, color));
                    if k == idx {
                        assert(fb.pixels@[k] == color);
                    } else {
                        assert(fb.pixels@[k] == before[k]);
                    }
                } else {
                    assert(fb.pixels@ == before);
                }
            }
            if in_frame(w, h, x0 as int, y0 as int) {
                lemma_grid_index(w, h, y0 as int, x0 as int);
                lemma_pixel_at(w, h, y0 * w + x0, x as int, y as int);
            }
        }
        if x == tx && y == ty {
            proof {
                if in_frame(w, h, x1 as int, y1 as int) {
                    lemma_grid_index(w, h, y1 as int, x1 as int);
                    lemma_pixel_at(w, h, y1 * w + x1, x as int, y as int);
                }
                if in_frame(w, h, x0 as int, y0 as int) && i == 0 && j == 0 {
                    lemma_grid_index(w, h, y0 as int, x0 as int);
                    lemma_pixel_at(w, h, y0 * w + x0, x as int, y as int);
                }
            }
            break;
        }
        let e2 = 2 * err;
        let ghost step_x = e2 >= dy;
        let ghost step_y = e2 <= dx;
        proof {
            if i == a {
                assert(!step_x) by (nonlinear_arith)
                    requires
                        i == a,
                        j < b,
                        0 <= j,
                        0 <= a,
                        err == a * (1 + j) - b * (1 + i),
                        e2 == 2 * err,
                        step_x == (e2 >= -b),
                ;
            }
            if j == b {
                assert(!step_y) by (nonlinear_arith)
                    requires
                        j == b,
                        i < a,
                        0 <= i,
                        0 <= b,
                        err == a * (1 + j) - b * (1 + i),
                        e2 == 2 * err,
                        step_y == (e2 <= a),
                ;
            }
        }
        if e2 >= dy {
            proof {
                assert(b * (1 + (i + 1)) == b * (1 + i) + b) by (nonlinear_arith);
            }
            err = err + dy;
            x = x + sx;
            proof {
                i = i + 1;
            }
        }
        if e2 <= dx {
            proof {
                assert(a * (1 + (j + 1)) == a * (1 + j) + a) by (nonlinear_arith);
            }
            err = err + dx;
            y = y + sy;
            proof {
                j = j + 1;
            }
        }
    }
    proof {
        if x0 == x1 || y0 == y1 {
            assert forall|k: int| 0 <= k < old_px.len() implies #[trigger] fb.pixels@[k] == if on_axis_segment(
                x0 as int,
                y0 as int,
                x1 as int,
                y1 as int,
                col_of(w, k),
                row_of(w, k),
            ) {
                color
            } else {
                old_px[k]
            } by {
                if b == 0 {
                    assert(on_axis_segment(x0 as int, y0 as int, x1 as int, y1 as int, col_of(w, k), row_of(w, k))
                        == (row_of(w, k) == y0 && 0 <= dist_along(sx as int, x0 as int, col_of(w, k)) <= a));
                } else {
                    assert(on_axis_segment(x0 as int, y0 as int, x1 as int, y1 as int, col_of(w, k), row_of(w, k))
                        == (col_of(w, k) == x0 && 0 <= dist_along(sy as int, y0 as int, row_of(w, k)) <= b));
                }
            }
        }
    }
}

} // verus!

verus! {

/// `(px, py)` is covered by a crosshair of arm length `size` centred at `(cx, cy)`:
/// four arms that stop 2 pixels short of the centre, plus the centre itself.
pub open spec fn crosshair_covers(cx: int, cy: int, size: int, px: int, py: int) -> bool {
    ||| on_axis_segment(cx - size, cy, cx - 2, cy, px, py)
    ||| on_axis_segment(cx + 2, cy, cx + size, cy, px, py)
    ||| on_axis_segment(cx, cy - size, cx, cy - 2, px, py)
    ||| on_axis_segment(cx, cy + 2, cx, cy + size, px, py)
    ||| (px == cx && py == cy)
}

/// Draws a `+` of arm length `size` at `(cx, cy)`, with a 1-pixel gap either side
/// of a centre dot. Pixels off the frame are skipped.
pub fn draw_crosshair(fb: &mut FrameBuffer, cx: i32, cy: i32, size: i32, color: u32)
    requires
        old(fb).wf(),
        i32::MIN <= cx - size <= i32::MAX,
        i32::MIN <= cx + size <= i32::MAX,
        i32::MIN <= cy - size <= i32::MAX,
        i32::MIN <= cy + size <= i32::MAX,
        i32::MIN + 2 <= cx <= i32::MAX - 2,
        i32::MIN + 2 <= cy <= i32::MAX - 2,
    ensures
        final(fb).width == old(fb).width,
        final(fb).height == old(fb).height,
        final(fb).wf(),
        forall|k: int|
            0 <= k < final(fb).pixels@.len() ==> #[trigger] final(fb).pixels@[k] == if crosshair_covers(
                cx as int,
                cy as int,
                size as int,
                col_of(old(fb).width as int, k),
                row_of(old(fb).width as int, k),
            ) {
                color
            } else {
                old(fb).pixels@[k]
            },
{
    let ghost old_px = fb.pixels@;
    let ghost w = fb.width as int;
    let ghost h = fb.height as int;
    draw_line(fb, cx - size, cy, cx - 2, cy, color);
    let ghost after_left = fb.pixels@;
    draw_line(fb, cx + 2, cy, cx + size, cy, color);
    let ghost after_right = fb.pixels@;
    draw_line(fb, cx, cy - size, cx, cy - 2, color);
    let ghost after_top = fb.pixels@;
    draw_line(fb, cx, cy + 2, cx, cy + size, color);
    let ghost after_bottom = fb.pixels@;
    put_pixel(fb, cx as i64, cy as i64, color);
    proof {
        assert forall|k: int| 0 <= k < fb.pixels@.len() implies #[trigger] fb.pixels@[k] == if crosshair_covers(
            cx as int,
            cy as int,
            size as int,
            col_of(w, k),
            row_of(w, k),
        ) {
            color
        } else {
            old_px[k]
        } by {
            assert(w > 0) by (nonlinear_arith)
                requires
                    0 <= k < w * h,
                    0 <= w,
                    0 <= h,
            ;
            lemma_pixel_at(w, h, k, cx as int, cy as int);
            assert(after_left[k] == if on_axis_segment(cx - size, cy as int, cx - 2, cy as int, col_of(w, k), row_of(w, k)) {
                color
            } else {
                old_px[k]
            });
            assert(after_right[k] == if on_axis_segment(cx + 2, cy as int, cx + size, cy as int, col_of(w, k), row_of(w, k)) {
                color
            } else {
                after_left[k]
            });
            assert(after_top[k] == if on_axis_segment(cx as int, cy - size, cx as int, cy - 2, col_of(w, k), row_of(w, k)) {
                color
            } else {
                after_right[k]
            });
            assert(after_bottom[k] == if on_axis_segment(cx as int, cy + 2, cx as int, cy + size, col_of(w, k), row_of(w, k)) {
                color
            } else {
                after_top[k]
            });
        }
    }
}

} // verus!

verus! {

/// The 5x7 bitmap of `ch`, one byte per row from the top, the low 5 bits being
/// the pixels with bit 4 leftmost; `None` for characters outside the font
/// (digits, `I D L E F P S`, space, `|`, `:` and `.`).
pub open spec fn glyph_rows(ch: char) -> Option<[u8; 7]> {
    match ch {
        '0' => Some([0b01110, 0b10001, 0b10011, 0b10101, 0b11001, 0b10001, 0b01110]),
        '1' => Some([0b00100, 0b01100, 0b00100, 0b00100, 0b00100, 0b00100, 0b01110]),
        '2' => Some([0b01110, 0b10001, 0b00001, 0b00010, 0b00100, 0b01000, 0b11111]),
        '3' => Some([0b11110, 0b00001, 0b00001, 0b01110, 0b00001, 0b00001, 0b11110]),
        '4' => Some([0b00010, 0b00110, 0b01010, 0b10010, 0b11111, 0b00010, 0b00010]),
        '5' => Some([0b11111, 0b10000, 0b11110, 0b00001, 0b00001, 0b10001, 0b01110]),
        '6' => Some([0b00110, 0b01000, 0b10000, 0b11110, 0b10001, 0b10001, 0b01110]),
        '7' => Some([0b11111, 0b00001, 0b00010, 0b00100, 0b01000, 0b01000, 0b01000]),
        '8' => Some([0b01110, 0b10001, 0b10001, 0b01110, 0b10001, 0b10001, 0b01110]),
        '9' => Some([0b01110, 0b10001, 0b10001, 0b01111, 0b00001, 0b00010, 0b01100]),
        'I' => Some([0b01110, 0b00100, 0b00100, 0b00100, 0b00100, 0b00100, 0b01110]),
        'D' => Some([0b11100, 0b10010, 0b10001, 0b10001, 0b10001, 0b10010, 0b11100]),
        'L' => Some([0b10000, 0b10000, 0b10000, 0b10000, 0b10000, 0b10000, 0b11111]),
        'E' => Some([0b11111, 0b10000, 0b10000, 0b11110, 0b10000, 0b10000, 0b11111]),
        'F' => Some([0b11111, 0b10000, 0b10000, 0b11110, 0b10000, 0b10000, 0b10000]),
        'P' => Some([0b11110, 0b10001, 0b10001, 0b11110, 0b10000, 0b10000, 0b10000]),
        'S' => Some([0b01111, 0b10000, 0b10000, 0b01110, 0b00001, 0b00001, 0b11110]),
        ' ' => Some([0b00000, 0b00000, 0b00000, 0b00000, 0b00000, 0b00000, 0b00000]),
        '|' => Some([0b00100, 0b00100, 0b00100, 0b00100, 0b00100, 0b00100, 0b00100]),
        ':' => Some([0b00000, 0b00100, 0b00000, 0b00000, 0b00100, 0b00000, 0b00000]),
        '.' => Some([0b00000, 0b00000, 0b00000, 0b00000, 0b00000, 0b00100, 0b00000]),
        _ => None,
    }
}

/// The 5x7 bitmap of `ch`, if the font has it.
fn glyph5x7(ch: char) -> (r: Option<[u8; 7]>)
    ensures
        r == glyph_rows(ch),
{
    match ch {
        '0' => Some([0b01110, 0b10001, 0b10011, 0b10101, 0b11001, 0b10001, 0b01110]),
        '1' => Some([0b00100, 0b01100, 0b00100, 0b00100, 0b00100, 0b00100, 0b01110]),
        '2' => Some([0b01110, 0b10001, 0b00001, 0b00010, 0b00100, 0b01000, 0b11111]),
        '3' => Some([0b11110, 0b00001, 0b00001, 0b01110, 0b00001, 0b00001, 0b11110]),
        '4' => Some([0b00010, 0b00110, 0b01010, 0b10010, 0b11111, 0b00010, 0b00010]),
        '5' => Some([0b11111, 0b10000, 0b11110, 0b00001, 0b00001, 0b10001, 0b01110]),
        '6' => Some([0b00110, 0b01000, 0b10000, 0b11110, 0b10001, 0b10001, 0b01110]),
        '7' => Some([0b11111, 0b00001, 0b00010, 0b00100, 0b01000, 0b01000, 0b01000]),
        '8' => Some([0b01110, 0b10001, 0b10001, 0b01110, 0b10001, 0b10001, 0b01110]),
        '9' => Some([0b01110, 0b10001, 0b10001, 0b01111, 0b00001, 0b00010, 0b01100]),
        'I' => Some([0b01110, 0b00100, 0b00100, 0b00100, 0b00100, 0b00100, 0b01110]),
        'D' => Some([0b11100, 0b10010, 0b10001, 0b10001, 0b10001, 0b10010, 0b11100]),
        'L' => Some([0b10000, 0b10000, 0b10000, 0b10000, 0b10000, 0b10000, 0b11111]),
        'E' => Some([0b11111, 0b10000, 0b10000, 0b11110, 0b10000, 0b10000, 0b11111]),
        'F' => Some([0b11111, 0b10000, 0b10000, 0b11110, 0b10000, 0b10000, 0b10000]),
        'P' => Some([0b11110, 0b10001, 0b10001, 0b11110, 0b10000, 0b10000, 0b10000]),
        'S' => Some([0b01111, 0b10000, 0b10000, 0b01110, 0b00001, 0b00001, 0b11110]),
        ' ' => Some([0b00000, 0b00000, 0b00000, 0b00000, 0b00000, 0b00000, 0b00000]),
        '|' => Some([0b00100, 0b00100, 0b00100, 0b00100, 0b00100, 0b00100, 0b00100]),
        ':' => Some([0b00000, 0b00100, 0b00000, 0b00000, 0b00100, 0b00000, 0b00000]),
        '.' => Some([0b00000, 0b00000, 0b00000, 0b00000, 0b00000, 0b00100, 0b00000]),
        _ => None,
    }
}

} // verus!

verus! {

/// Glyph cell `(gx, gy)` of `rows` is lit.
pub open spec fn glyph_bit(rows: [u8; 7], gx: int, gy: int) -> bool {
    0 <= gx < 5 && 0 <= gy < 7 && (rows@[gy] & (1u8 << ((4 - gx) as u8))) != 0
}

/// Pixel `k` (previously `p`) after a lit glyph cell is painted `color` at each
/// frame position `(ox + gx, oy + gy)`.
pub open spec fn glyph_layer_px(w: int, k: int, p: u32, rows: [u8; 7], ox: int, oy: int, color: u32) -> u32 {
    if glyph_bit(rows, col_of(w, k) - ox, row_of(w, k) - oy) {
        color
    } else {
        p
    }
}

/// Pixel `k` (previously `p`) after character `ch` is drawn at `(x, y)`: the glyph
/// in `color` over a black copy of it one pixel right and down.
pub open spec fn char_px(w: int, k: int, p: u32, x: int, y: int, ch: char, color: u32) -> u32 {
    match glyph_rows(ch) {
        Some(rows) => glyph_layer_px(w, k, glyph_layer_px(w, k, p, rows, x + 1, y + 1, 0), rows, x, y, color),
        None => p,
    }
}

/// The pixels `px` of a frame `w` wide after character `ch` is drawn at `(x, y)`.
pub open spec fn char_effect(px: Seq<u32>, w: int, x: int, y: int, ch: char, color: u32) -> Seq<u32> {
    Seq::new(px.len(), |k: int| char_px(w, k, px[k], x, y, ch, color))
}

/// The pixels `px` after the characters of `s` are drawn one after another from
/// `(x, y)`, each 6 pixels right of the one before.
pub open spec fn text_effect(px: Seq<u32>, w: int, x: int, y: int, s: Seq<char>, color: u32) -> Seq<u32>
    decreases s.len(),
{
    if s.len() == 0 {
        px
    } else {
        char_effect(
            text_effect(px, w, x, y, s.drop_last(), color),
            w,
            x + 6 * (s.len() - 1),
            y,
            s.last(),
            color,
        )
    }
}

/// Paints every lit cell of the glyph `rows` in `color`, cell `(gx, gy)` going to
/// `(ox + gx, oy + gy)`; positions off the frame are skipped.
fn paint_glyph(fb: &mut FrameBuffer, rows: &[u8; 7], ox: i64, oy: i64, color: u32)
    requires
        old(fb).wf(),
        -0x1_0000_0000 <= ox <= 0x1_0000_0000,
        -0x1_0000_0000 <= oy <= 0x1_0000_0000,
    ensures
        final(fb).width == old(fb).width,
        final(fb).height == old(fb).height,
        final(fb).wf(),
        forall|k: int|
            0 <= k < final(fb).pixels@.len() ==> #[trigger] final(fb).pixels@[k] == glyph_layer_px(
                old(fb).width as int,
                k,
                old(fb).pixels@[k],
                *rows,
                ox as int,
                oy as int,
                color,
            ),
{
    let ghost old_px = fb.pixels@;
    let ghost w = fb.width as int;
    let ghost h = fb.height as int;
    let mut ry: usize = 0;
    while ry < 7
        invariant
            0 <= ry <= 7,
            -0x1_0000_0000 <= ox <= 0x1_0000_0000,
            -0x1_0000_0000 <= oy <= 0x1_0000_0000,
            fb.wf(),
            fb.width == w,
            fb.height == h,
            fb.pixels@.len() == old_px.len(),
            old_px.len() == w * h,
            forall|k: int|
                0 <= k < old_px.len() ==> #[trigger] fb.pixels@[k] == if row_of(w, k) - oy < ry
                    && glyph_bit(*rows, col_of(w, k) - ox, row_of(w, k) - oy) {
                    color
                } else {
                    old_px[k]
                },
        decreases 7 - ry,
    {
        let bits = rows[ry];
        let mut rx: usize = 0;
        while rx < 5
            invariant
                0 <= rx <= 5,
                0 <= ry < 7,
                bits == rows@[ry as int],
                -0x1_0000_0000 <= ox <= 0x1_0000_0000,
                -0x1_0000_0000 <= oy <= 0x1_0000_0000,
                fb.wf(),
                fb.width == w,
                fb.height == h,
                fb.pixels@.len() == old_px.len(),
                old_px.len() == w * h,
                forall|k: int|
                    0 <= k < old_px.len() ==> #[trigger] fb.pixels@[k] == if (row_of(w, k) - oy < ry
                        || (row_of(w, k) - oy == ry && col_of(w, k) - ox < rx)) && glyph_bit(
                        *rows,
                        col_of(w, k) - ox,
                        row_of(w, k) - oy,
                    ) {
                        color
                    } else {
                        old_px[k]
                    },
            decreases 5 - rx,
        {
            let lit = (bits & (1u8 << ((4 - rx) as u8))) != 0;
            let px = ox + rx as i64;
            let py = oy + ry as i64;
            let ghost before = fb.pixels@;
            if lit {
                put_pixel(fb, px, py, color);
            }
            proof {
                assert forall|k: int| 0 <= k < old_px.len() implies #[trigger] fb.pixels@[k] == if (row_of(
                    w,
                    k,
                ) - oy < ry || (row_of(w, k) - oy == ry && col_of(w, k) - ox < rx + 1)) && glyph_bit(
                    *rows,
                    col_of(w, k) - ox,
                    row_of(w, k) - oy,
                ) {
                    color
                } else {
                    old_px[k]
                } by {
                    assert(w > 0) by (nonlinear_arith)
                        requires
                            0 <= k < w * h,
                            0 <= w,
                            0 <= h,
                    ;
                    lemma_pixel_at(w, h, k, px as int, py as int);
                    if lit && in_frame(w, h, px as int, py as int) {
                        assert(fb.pixels@ == before.update(py * w + px, color));
                    }
                }
            }
            rx = rx + 1;
        }
        ry = ry + 1;
    }
}

/// Draws one 5x7 character at `(x, y)` in `color`, over a black shadow offset by
/// one pixel right and down. Characters outside the font draw nothing.
fn draw_char_5x7(fb: &mut FrameBuffer, x: i64, y: i64, ch: char, color: u32)
    requires
        old(fb).wf(),
        -0x1_0000_0000 <= x <= 0xffff_ffff,
        -0x1_0000_0000 <= y <= 0xffff_ffff,
    ensures
        final(fb).width == old(fb).width,
        final(fb).height == old(fb).height,
        final(fb).wf(),
        final(fb).pixels@ == char_effect(old(fb).pixels@, old(fb).width as int, x as int, y as int, ch, color),
{
    let ghost old_px = fb.pixels@;
    let ghost w = fb.width as int;
    if let Some(rows) = glyph5x7(ch) {
        paint_glyph(fb, &rows, x + 1, y + 1, 0);
        paint_glyph(fb, &rows, x, y, color);
    }
    assert(fb.pixels@ =~= char_effect(old_px, w, x as int, y as int, ch, color));
}

/// Draws `text` left to right from `(x, y)` in the 5x7 font, one glyph every 6 pixels.
pub fn draw_text_5x7(fb: &mut FrameBuffer, x: i32, y: i32, text: &str, color: u32)
    requires
        old(fb).wf(),
        x + 6 * text@.len() <= i32::MAX,
    ensures
        final(fb).width == old(fb).width,
        final(fb).height == old(fb).height,
        final(fb).wf(),
        final(fb).pixels@ == text_effect(old(fb).pixels@, old(fb).width as int, x as int, y as int, text@, color),
{
    let ghost old_px = fb.pixels@;
    let ghost w = fb.width as int;
    let n = text.unicode_len();
    let mut i: usize = 0;
    let mut cx: i32 = x;
    while i < n
        invariant
            0 <= i <= n,
            n == text@.len(),
            x + 6 * text@.len() <= i32::MAX,
            cx == x + 6 * i,
            fb.wf(),
            fb.width == w,
            fb.height == old(fb).height,
            fb.pixels@ == text_effect(old_px, w, x as int, y as int, text@.take(i as int), color),
        decreases n - i,
    {
        proof {
            assert(text@.take(i + 1).drop_last() =~= text@.take(i as int));
        }
        let ch = text.get_char(i);
        draw_char_5x7(fb, cx as i64, y as i64, ch, color);
        cx = cx + 6;
        i = i + 1;
    }
    proof {
        assert(text@.take(n as int) =~= text@);
    }
}

} // verus!
